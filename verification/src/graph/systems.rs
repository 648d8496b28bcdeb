//! Edits of the graph that keep the spatial grid in step with it: adding a
//! node, adding and removing an edge, deleting a node, rewiring a node, and
//! moving a node between chunks.

use std::collections::HashMap;
use vstd::prelude::*;

use crate::graph::model::{
    graph_wf, incident_in, neighbor_in, links_to, other_end, remove_edge_id, touches, ColorBits,
    EdgeData, EdgeId, GraphData, NodeData, NodeId, TextSize, Vec2Bits,
};
use crate::render::nodes::{estimate_text_size, text_size};
use vstd::utf8::encode_utf8;
use crate::seqs::{lemma_without_absent, lemma_without_contains, without};
use crate::spatial::grid::{
    grid_insert_cross_edge, grid_insert_edge, grid_insert_node, grid_mark_dirty,
    grid_remove_cross_edge, grid_remove_edge, grid_remove_node, ChunkCoord, ChunkView, SpatialGrid,
};

verus! {

broadcast use vstd::std_specs::hash::group_hash_axioms;

/// The graph and the grid together, as maps and sequences.
pub struct Scene {
    pub nodes: Map<u64, NodeData>,
    pub edges: Map<u64, EdgeData>,
    pub adj: Map<u64, Seq<EdgeId>>,
    pub grid: Map<u64, ChunkView>,
    pub next_node: u64,
    pub next_edge: u64,
}

pub open spec fn scene(graph: &GraphData, grid: &SpatialGrid) -> Scene {
    Scene {
        nodes: graph.nodes@,
        edges: graph.edges@,
        adj: graph.adj_view(),
        grid: grid@,
        next_node: graph.next_node_id,
        next_edge: graph.next_edge_id,
    }
}

impl Scene {
    pub open spec fn wf(self) -> bool {
        graph_wf(self.nodes, self.edges, self.adj, self.next_edge)
    }

    pub open spec fn is_neighbor(self, n: NodeId, m: NodeId) -> bool {
        neighbor_in(self.edges, self.adj, n, m)
    }
}

/// Chunk of node `id`, or `fallback` where the node is missing.
pub open spec fn chunk_or(nodes: Map<u64, NodeData>, id: NodeId, fallback: ChunkCoord) -> ChunkCoord {
    if nodes.contains_key(id.0) {
        nodes[id.0].chunk
    } else {
        fallback
    }
}

/// Grid after filing edge `e` between chunks `sc` and `tc`: as an inner edge
/// when they are the same chunk, else as a crossing edge of both.
pub open spec fn grid_link(g: Map<u64, ChunkView>, e: EdgeId, sc: ChunkCoord, tc: ChunkCoord) -> Map<u64, ChunkView> {
    if sc == tc {
        grid_insert_edge(g, e, sc)
    } else {
        grid_insert_cross_edge(grid_insert_cross_edge(g, e, sc), e, tc)
    }
}

/// Grid after withdrawing edge `e` filed between chunks `sc` and `tc`.
pub open spec fn grid_unlink(g: Map<u64, ChunkView>, e: EdgeId, sc: ChunkCoord, tc: ChunkCoord) -> Map<u64, ChunkView> {
    if sc == tc {
        grid_remove_edge(g, e, sc)
    } else {
        grid_remove_cross_edge(grid_remove_cross_edge(g, e, sc), e, tc)
    }
}

/// Incidence lists after appending `e` to the list of `n` (created if missing).
pub open spec fn adj_push(adj: Map<u64, Seq<EdgeId>>, n: u64, e: EdgeId) -> Map<u64, Seq<EdgeId>> {
    adj.insert(n, incident_in(adj, n).push(e))
}

/// Incidence lists after dropping every `e` from the list of `n` (if it has one).
pub open spec fn adj_drop(adj: Map<u64, Seq<EdgeId>>, n: u64, e: EdgeId) -> Map<u64, Seq<EdgeId>> {
    if adj.contains_key(n) {
        adj.insert(n, without(adj[n], e))
    } else {
        adj
    }
}

fn push_incident(adjacency: &mut HashMap<u64, Vec<EdgeId>>, n: u64, e: EdgeId)
    ensures
        final(adjacency)@.map_values(|v: Vec<EdgeId>| v@) == adj_push(
            old(adjacency)@.map_values(|v: Vec<EdgeId>| v@),
            n,
            e,
        ),
{
    let mut list = match adjacency.remove(&n) {
        Some(l) => l,
        None => Vec::new(),
    };
    list.push(e);
    adjacency.insert(n, list);
    assert(adjacency@.map_values(|v: Vec<EdgeId>| v@) =~= adj_push(
        old(adjacency)@.map_values(|v: Vec<EdgeId>| v@),
        n,
        e,
    ));
}

fn drop_incident(adjacency: &mut HashMap<u64, Vec<EdgeId>>, n: u64, e: EdgeId)
    ensures
        final(adjacency)@.map_values(|v: Vec<EdgeId>| v@) == adj_drop(
            old(adjacency)@.map_values(|v: Vec<EdgeId>| v@),
            n,
            e,
        ),
        final(adjacency)@.dom() == old(adjacency)@.dom(),
{
    if let Some(mut list) = adjacency.remove(&n) {
        remove_edge_id(&mut list, e);
        adjacency.insert(n, list);
        assert(adjacency@.map_values(|v: Vec<EdgeId>| v@) =~= adj_drop(
            old(adjacency)@.map_values(|v: Vec<EdgeId>| v@),
            n,
            e,
        ));
        assert(adjacency@.dom() =~= old(adjacency)@.dom());
    }
}

/// File or withdraw nothing but what `grid_link` says.
fn link_in_grid(grid: &mut SpatialGrid, e: EdgeId, sc: ChunkCoord, tc: ChunkCoord)
    ensures
        final(grid)@ == grid_link(old(grid)@, e, sc, tc),
{
    if sc == tc {
        grid.insert_edge(e, sc);
    } else {
        grid.insert_cross_edge(e, sc);
        grid.insert_cross_edge(e, tc);
    }
}

fn unlink_in_grid(grid: &mut SpatialGrid, e: EdgeId, sc: ChunkCoord, tc: ChunkCoord)
    ensures
        final(grid)@ == grid_unlink(old(grid)@, e, sc, tc),
{
    if sc == tc {
        grid.remove_edge(e, sc);
    } else {
        grid.remove_cross_edge(e, sc);
        grid.remove_cross_edge(e, tc);
    }
}

// ---------------------------------------------------------------- add node

/// A node's fields as an event carries them; the rectangle size is derived
/// from the name.
pub struct NodeFields {
    pub position: Vec2Bits,
    pub chunk: ChunkCoord,
    pub name: String,
    pub data: String,
    pub color: ColorBits,
}

/// Rectangle for a label with characters `text` (measured on its UTF-8 bytes).
pub open spec fn label_size(text: Seq<char>) -> TextSize {
    TextSize {
        width: text_size(encode_utf8(text)).0 as u128,
        height: text_size(encode_utf8(text)).1 as u128,
    }
}

/// The node the graph stores for `f` with render entity `entity`.
pub open spec fn node_from_fields(f: NodeFields, entity: Option<u64>) -> NodeData {
    NodeData {
        position: f.position,
        chunk: f.chunk,
        name: f.name,
        data: f.data,
        color: f.color,
        size: label_size(f.name@),
        entity,
    }
}

fn build_node(f: NodeFields, entity: Option<u64>) -> (d: NodeData)
    ensures
        d == node_from_fields(f, entity),
{
    let size = estimate_text_size(f.name.as_str());
    NodeData {
        position: f.position,
        chunk: f.chunk,
        name: f.name,
        data: f.data,
        color: f.color,
        size,
        entity,
    }
}

/// Scene after adding node `id` with `data`: the node is stored (replacing
/// any node of that id), gets an empty incidence list unless it had one, and
/// is filed in its chunk.
pub open spec fn scene_add_node(s: Scene, id: NodeId, data: NodeData) -> Scene {
    Scene {
        nodes: s.nodes.insert(id.0, data),
        adj: if s.adj.contains_key(id.0) {
            s.adj
        } else {
            s.adj.insert(id.0, Seq::empty())
        },
        grid: grid_insert_node(s.grid, id, data.chunk),
        ..s
    }
}

/// The id a new node gets: the one allocated for it beforehand, else a fresh one.
pub fn resolve_node_id(graph: &mut GraphData, pre_allocated_id: Option<NodeId>) -> (id: NodeId)
    requires
        pre_allocated_id is None ==> old(graph).node_counter() < u64::MAX,
    ensures
        match pre_allocated_id {
            Some(p) => id == p && *final(graph) == *old(graph),
            None => {
                &&& id.0 == old(graph).node_counter()
                &&& final(graph).node_counter() == old(graph).node_counter() + 1
                &&& final(graph).edge_counter() == old(graph).edge_counter()
                &&& final(graph).nodes == old(graph).nodes
                &&& final(graph).edges == old(graph).edges
                &&& final(graph).adjacency == old(graph).adjacency
            },
        },
{
    match pre_allocated_id {
        Some(p) => p,
        None => graph.next_node_id(),
    }
}

/// Stores a new node (its rectangle sized from its name) and files it in the
/// grid chunk of its position. `entity` is its render entity.
pub fn process_add_node_event(
    graph: &mut GraphData,
    grid: &mut SpatialGrid,
    id: NodeId,
    fields: NodeFields,
    entity: Option<u64>,
)
    ensures
        scene(final(graph), final(grid)) == scene_add_node(
            scene(old(graph), old(grid)),
            id,
            node_from_fields(fields, entity),
        ),
        old(graph).wf() ==> final(graph).wf(),
{
    let ghost s = scene(graph, grid);
    let data = build_node(fields, entity);
    let ghost d = data;
    let chunk = data.chunk;
    graph.nodes.insert(id.0, data);
    if !graph.adjacency.contains_key(&id.0) {
        graph.adjacency.insert(id.0, Vec::new());
    }
    grid.insert_node(id, chunk);
    proof {
        assert(graph.adj_view() =~= scene_add_node(s, id, d).adj);
        if s.wf() {
            let t = scene(graph, grid);
            assert(t.adj.dom() =~= t.nodes.dom());
            assert forall|n: u64| #[trigger] incident_in(t.adj, n) == incident_in(s.adj, n) by {}
        }
    }
}

// ---------------------------------------------------------------- add edge

/// Scene after joining two existing nodes by a new edge with the next edge id.
pub open spec fn scene_add_edge(s: Scene, source: NodeId, target: NodeId, color: ColorBits) -> Scene {
    let e = EdgeId(s.next_edge);
    Scene {
        edges: s.edges.insert(e.0, EdgeData { source, target, color }),
        adj: adj_push(adj_push(s.adj, source.0, e), target.0, e),
        grid: grid_link(s.grid, e, s.nodes[source.0].chunk, s.nodes[target.0].chunk),
        next_edge: (s.next_edge + 1) as u64,
        ..s
    }
}

/// Joins `source` and `target` by a new edge when both exist; returns its id.
/// The edge is filed in the grid as an inner edge of the shared chunk, or as a
/// crossing edge of both chunks.
pub fn process_add_edge_event(
    graph: &mut GraphData,
    grid: &mut SpatialGrid,
    source: NodeId,
    target: NodeId,
    color: ColorBits,
) -> (r: Option<EdgeId>)
    requires
        old(graph).edge_counter() < u64::MAX,
    ensures
        ({
            let s = scene(old(graph), old(grid));
            if s.nodes.contains_key(source.0) && s.nodes.contains_key(target.0) {
                &&& r == Some(EdgeId(s.next_edge))
                &&& scene(final(graph), final(grid)) == scene_add_edge(s, source, target, color)
            } else {
                &&& r is None
                &&& scene(final(graph), final(grid)) == s
            }
        }),
        old(graph).wf() ==> final(graph).wf(),
{
    let ghost s = scene(graph, grid);
    let sc = match graph.nodes.get(&source.0) {
        Some(n) => n.chunk,
        None => return None,
    };
    let tc = match graph.nodes.get(&target.0) {
        Some(n) => n.chunk,
        None => return None,
    };
    let id = graph.next_edge_id();
    graph.edges.insert(id.0, EdgeData { source, target, color });
    push_incident(&mut graph.adjacency, source.0, id);
    push_incident(&mut graph.adjacency, target.0, id);
    link_in_grid(grid, id, sc, tc);
    proof {
        let t = scene(graph, grid);
        assert(t == scene_add_edge(s, source, target, color));
        if s.wf() {
            lemma_add_edge_wf(s, source, target, color);
        }
    }
    Some(id)
}

proof fn lemma_add_edge_wf(s: Scene, source: NodeId, target: NodeId, color: ColorBits)
    requires
        s.wf(),
        s.nodes.contains_key(source.0),
        s.nodes.contains_key(target.0),
        s.next_edge < u64::MAX,
    ensures
        scene_add_edge(s, source, target, color).wf(),
{
    let t = scene_add_edge(s, source, target, color);
    let e = EdgeId(s.next_edge);
    assert(!s.edges.contains_key(e.0));
    assert(t.adj.dom() =~= t.nodes.dom());
    assert forall|n: u64| #[trigger] incident_in(t.adj, n) == if n == source.0 && n == target.0 {
        incident_in(s.adj, n).push(e).push(e)
    } else if n == source.0 || n == target.0 {
        incident_in(s.adj, n).push(e)
    } else {
        incident_in(s.adj, n)
    } by {}
    assert forall|x: u64| #[trigger] t.edges.contains_key(x) implies {
        let d = t.edges[x];
        &&& x < t.next_edge
        &&& t.nodes.contains_key(d.source.0)
        &&& t.nodes.contains_key(d.target.0)
        &&& incident_in(t.adj, d.source.0).contains(EdgeId(x))
        &&& incident_in(t.adj, d.target.0).contains(EdgeId(x))
    } by {
        let d = t.edges[x];
        if x == e.0 {
            let ls = incident_in(t.adj, source.0);
            let lt = incident_in(t.adj, target.0);
            if source.0 == target.0 {
                assert(ls[ls.len() - 1] == e);
            } else {
                assert(ls[ls.len() - 1] == e);
                assert(lt[lt.len() - 1] == e);
            }
        } else {
            let a = incident_in(s.adj, d.source.0);
            let b = incident_in(s.adj, d.target.0);
            let ia = choose|i: int| 0 <= i < a.len() && a[i] == EdgeId(x);
            let ib = choose|i: int| 0 <= i < b.len() && b[i] == EdgeId(x);
            assert(incident_in(t.adj, d.source.0)[ia] == EdgeId(x));
            assert(incident_in(t.adj, d.target.0)[ib] == EdgeId(x));
        }
    }
    assert forall|n: u64, i: int|
        0 <= i < incident_in(t.adj, n).len() implies {
            let x = #[trigger] incident_in(t.adj, n)[i];
            &&& t.edges.contains_key(x.0)
            &&& touches(t.edges[x.0], n)
        } by {
        let old_list = incident_in(s.adj, n);
        if i < old_list.len() {
            assert(incident_in(t.adj, n)[i] == old_list[i]);
        }
    }
}

// ---------------------------------------------------------------- remove edge

/// Scene after removing edge `e` (no change where it does not exist): the edge
/// leaves the edge map and both ends' lists, and is withdrawn from the grid
/// when both ends still exist.
pub open spec fn scene_remove_edge(s: Scene, e: EdgeId) -> Scene {
    if !s.edges.contains_key(e.0) {
        s
    } else {
        let d = s.edges[e.0];
        Scene {
            edges: s.edges.remove(e.0),
            adj: adj_drop(adj_drop(s.adj, d.source.0, e), d.target.0, e),
            grid: if s.nodes.contains_key(d.source.0) && s.nodes.contains_key(d.target.0) {
                grid_unlink(s.grid, e, s.nodes[d.source.0].chunk, s.nodes[d.target.0].chunk)
            } else {
                s.grid
            },
            ..s
        }
    }
}

/// Removes one edge from the graph and the grid.
pub fn remove_single_edge(graph: &mut GraphData, grid: &mut SpatialGrid, edge_id: EdgeId)
    ensures
        scene(final(graph), final(grid)) == scene_remove_edge(scene(old(graph), old(grid)), edge_id),
        old(graph).wf() ==> final(graph).wf(),
{
    let ghost s = scene(graph, grid);
    let edge = match graph.edges.remove(&edge_id.0) {
        Some(e) => e,
        None => {
            assert(graph.edges@ =~= s.edges);
            return;
        },
    };
    let source = edge.source;
    let target = edge.target;
    drop_incident(&mut graph.adjacency, source.0, edge_id);
    drop_incident(&mut graph.adjacency, target.0, edge_id);
    let sc = match graph.nodes.get(&source.0) {
        Some(n) => n.chunk,
        None => {
            proof {
                lemma_remove_edge_wf(s, edge_id);
            }
            return;
        },
    };
    let tc = match graph.nodes.get(&target.0) {
        Some(n) => n.chunk,
        None => {
            proof {
                lemma_remove_edge_wf(s, edge_id);
            }
            return;
        },
    };
    unlink_in_grid(grid, edge_id, sc, tc);
    proof {
        lemma_remove_edge_wf(s, edge_id);
    }
}

pub proof fn lemma_remove_edge_wf(s: Scene, e: EdgeId)
    ensures
        s.wf() ==> scene_remove_edge(s, e).wf(),
        scene_remove_edge(s, e).nodes == s.nodes,
        scene_remove_edge(s, e).adj.dom() == s.adj.dom(),
        !scene_remove_edge(s, e).edges.contains_key(e.0),
        scene_remove_edge(s, e).edges.dom().subset_of(s.edges.dom()),
        forall|x: u64| #[trigger] scene_remove_edge(s, e).edges.contains_key(x) ==> scene_remove_edge(s, e).edges[x] == s.edges[x],
{
    let t = scene_remove_edge(s, e);
    if s.edges.contains_key(e.0) {
        let d = s.edges[e.0];
        assert(t.adj.dom() =~= s.adj.dom());
        assert forall|n: u64| #[trigger] incident_in(t.adj, n) == if n == d.source.0 || n == d.target.0 {
            without(incident_in(s.adj, n), e)
        } else {
            incident_in(s.adj, n)
        } by {
            if n == d.source.0 && n == d.target.0 && s.adj.contains_key(n) {
                lemma_without_twice(s.adj[n], e);
            }
        }
        if s.wf() {
            assert forall|x: u64| #[trigger] t.edges.contains_key(x) implies {
                let dx = t.edges[x];
                &&& x < t.next_edge
                &&& t.nodes.contains_key(dx.source.0)
                &&& t.nodes.contains_key(dx.target.0)
                &&& incident_in(t.adj, dx.source.0).contains(EdgeId(x))
                &&& incident_in(t.adj, dx.target.0).contains(EdgeId(x))
            } by {
                let dx = t.edges[x];
                lemma_without_contains(incident_in(s.adj, dx.source.0), e, EdgeId(x));
                lemma_without_contains(incident_in(s.adj, dx.target.0), e, EdgeId(x));
            }
            assert forall|n: u64, i: int|
                0 <= i < incident_in(t.adj, n).len() implies {
                    let x = #[trigger] incident_in(t.adj, n)[i];
                    &&& t.edges.contains_key(x.0)
                    &&& touches(t.edges[x.0], n)
                } by {
                let x = incident_in(t.adj, n)[i];
                let l = incident_in(s.adj, n);
                if n == d.source.0 || n == d.target.0 {
                    assert(without(l, e).contains(x));
                    lemma_without_contains(l, e, x);
                    let k = choose|k: int| 0 <= k < l.len() && l[k] == x;
                    assert(l[k] == x);
                }
            }
        }
    } else {
        assert(t.edges =~= s.edges);
    }
}

/// Dropping an element twice is dropping it once.
pub proof fn lemma_without_twice(s: Seq<EdgeId>, x: EdgeId)
    ensures
        without(without(s, x), x) == without(s, x),
    decreases s.len(),
{
    if s.len() > 0 {
        lemma_without_twice(s.drop_last(), x);
        if s.last() != x {
            let w = without(s.drop_last(), x);
            assert(w.push(s.last()).drop_last() =~= w);
        }
    }
}

// ---------------------------------------------------------------- delete node

/// One step of deleting node `n` whose chunk was `nc`: when edge `e` still
/// exists it leaves the edge map and the list of its other end, and is
/// withdrawn from the grid (a missing end counts as sitting in `nc`).
pub open spec fn scene_delete_step(s: Scene, n: NodeId, nc: ChunkCoord, e: EdgeId) -> Scene {
    if !s.edges.contains_key(e.0) {
        s
    } else {
        let d = s.edges[e.0];
        let sc = if d.source == n {
            nc
        } else {
            chunk_or(s.nodes, d.source, nc)
        };
        let tc = if d.target == n {
            nc
        } else {
            chunk_or(s.nodes, d.target, nc)
        };
        Scene {
            edges: s.edges.remove(e.0),
            adj: adj_drop(s.adj, other_end(d, n).0, e),
            grid: grid_unlink(s.grid, e, sc, tc),
            ..s
        }
    }
}

/// The steps of deleting `n`, one per edge of `list`, in order.
pub open spec fn scene_delete_steps(s: Scene, n: NodeId, nc: ChunkCoord, list: Seq<EdgeId>) -> Scene
    decreases list.len(),
{
    if list.len() == 0 {
        s
    } else {
        scene_delete_step(scene_delete_steps(s, n, nc, list.drop_last()), n, nc, list.last())
    }
}

/// Scene after deleting node `n` (no change where it does not exist): the node
/// leaves the node map and its chunk, its incidence list goes, and each edge
/// of that list is removed as `scene_delete_step` says.
pub open spec fn scene_delete_node(s: Scene, n: NodeId) -> Scene {
    if !s.nodes.contains_key(n.0) {
        s
    } else {
        let nc = s.nodes[n.0].chunk;
        let s1 = Scene { nodes: s.nodes.remove(n.0), grid: grid_remove_node(s.grid, n, nc), ..s };
        if s.adj.contains_key(n.0) {
            scene_delete_steps(Scene { adj: s1.adj.remove(n.0), ..s1 }, n, nc, s.adj[n.0])
        } else {
            s1
        }
    }
}

/// Deletes a node with its edges from the graph and the grid; returns what
/// the graph held for it (its render entity is the caller's to despawn).
pub fn process_delete_node_event(graph: &mut GraphData, grid: &mut SpatialGrid, node_id: NodeId) -> (r: Option<NodeData>)
    ensures
        r == old(graph).nodes@.get(node_id.0),
        scene(final(graph), final(grid)) == scene_delete_node(scene(old(graph), old(grid)), node_id),
        old(graph).wf() ==> final(graph).wf(),
{
    let ghost s = scene(graph, grid);
    let node_data = match graph.nodes.remove(&node_id.0) {
        Some(d) => d,
        None => {
            assert(graph.nodes@ =~= s.nodes);
            return None;
        },
    };
    let nc = node_data.chunk;
    grid.remove_node(node_id, nc);
    match graph.adjacency.remove(&node_id.0) {
        Some(edge_ids) => {
            let ghost s2 = scene(graph, grid);
            assert(s2.adj =~= s.adj.remove(node_id.0));
            assert(edge_ids@.take(0) =~= Seq::<EdgeId>::empty());
            let len = edge_ids.len();
            let mut i: usize = 0;
            while i < len
                invariant
                    len == edge_ids@.len(),
                    i <= len,
                    scene(graph, grid) == scene_delete_steps(s2, node_id, nc, edge_ids@.take(i as int)),
                decreases len - i,
            {
                let ghost before = scene(graph, grid);
                let edge_id = edge_ids[i];
                assert(edge_ids@.take(i + 1).drop_last() =~= edge_ids@.take(i as int));
                assert(edge_ids@.take(i + 1).last() == edge_id);
                match graph.edges.remove(&edge_id.0) {
                    Some(edge) => {
                        let other = if edge.source == node_id {
                            edge.target
                        } else {
                            edge.source
                        };
                        drop_incident(&mut graph.adjacency, other.0, edge_id);
                        let sc = if edge.source == node_id {
                            nc
                        } else {
                            match graph.nodes.get(&edge.source.0) {
                                Some(d) => d.chunk,
                                None => nc,
                            }
                        };
                        let tc = if edge.target == node_id {
                            nc
                        } else {
                            match graph.nodes.get(&edge.target.0) {
                                Some(d) => d.chunk,
                                None => nc,
                            }
                        };
                        unlink_in_grid(grid, edge_id, sc, tc);
                        assert(scene(graph, grid) == scene_delete_step(before, node_id, nc, edge_id));
                    },
                    None => {
                        assert(graph.edges@ =~= before.edges);
                    },
                }
                i = i + 1;
            }
            assert(edge_ids@.take(len as int) =~= edge_ids@);
        },
        None => {
            assert(graph.adj_view() =~= s.adj);
        },
    }
    proof {
        if s.wf() {
            lemma_delete_node_wf(s, node_id);
        }
    }
    Some(node_data)
}

/// What holds part-way through deleting `n`: `k` of the `list` steps are done.
pub open spec fn delete_progress(s: Scene, t: Scene, n: NodeId, list: Seq<EdgeId>, k: int) -> bool {
    &&& t.adj.dom() == t.nodes.dom()
    &&& !t.nodes.contains_key(n.0)
    &&& t.next_edge == s.next_edge
    &&& forall|j: int| 0 <= j < list.len() ==> #[trigger] s.edges.contains_key(list[j].0) && touches(s.edges[list[j].0], n.0)
    &&& forall|e: u64| #[trigger] t.edges.contains_key(e) ==> s.edges.contains_key(e) && t.edges[e] == s.edges[e]
    &&& forall|e: u64| #[trigger] t.edges.contains_key(e) ==> {
        let d = t.edges[e];
        &&& e < t.next_edge
        &&& if touches(d, n.0) {
            exists|j: int| k <= j < list.len() && #[trigger] list[j] == EdgeId(e)
        } else {
            &&& t.nodes.contains_key(d.source.0)
            &&& t.nodes.contains_key(d.target.0)
            &&& incident_in(t.adj, d.source.0).contains(EdgeId(e))
            &&& incident_in(t.adj, d.target.0).contains(EdgeId(e))
        }
    }
    &&& forall|m: u64, i: int|
        0 <= i < incident_in(t.adj, m).len() ==> {
            let x = #[trigger] incident_in(t.adj, m)[i];
            &&& t.edges.contains_key(x.0)
            &&& touches(t.edges[x.0], m)
        }
}

proof fn lemma_delete_steps(s: Scene, s1: Scene, n: NodeId, nc: ChunkCoord, list: Seq<EdgeId>, k: nat)
    requires
        k <= list.len(),
        delete_progress(s, s1, n, list, 0),
    ensures
        delete_progress(s, scene_delete_steps(s1, n, nc, list.take(k as int)), n, list, k as int),
        scene_delete_steps(s1, n, nc, list.take(k as int)).nodes == s1.nodes,
    decreases k,
{
    if k == 0 {
        assert(list.take(0) =~= Seq::<EdgeId>::empty());
    } else {
        let k1 = (k - 1) as nat;
        lemma_delete_steps(s, s1, n, nc, list, k1);
        let pre = list.take(k as int);
        assert(pre.drop_last() =~= list.take(k1 as int));
        let t0 = scene_delete_steps(s1, n, nc, list.take(k1 as int));
        let e = list[k1 as int];
        assert(pre.last() == e);
        let t = scene_delete_step(t0, n, nc, e);
        assert(scene_delete_steps(s1, n, nc, pre) == t);
        if t0.edges.contains_key(e.0) {
            let d = t0.edges[e.0];
            let o = other_end(d, n);
            assert(touches(s.edges[e.0], n.0));
            assert(t.adj.dom() =~= t0.adj.dom());
            assert forall|m: u64| #[trigger] incident_in(t.adj, m) == if m == o.0 {
                without(incident_in(t0.adj, m), e)
            } else {
                incident_in(t0.adj, m)
            } by {}
            assert forall|x: u64| #[trigger] t.edges.contains_key(x) implies {
                let dx = t.edges[x];
                &&& x < t.next_edge
                &&& if touches(dx, n.0) {
                    exists|j: int| k <= j < list.len() && #[trigger] list[j] == EdgeId(x)
                } else {
                    &&& t.nodes.contains_key(dx.source.0)
                    &&& t.nodes.contains_key(dx.target.0)
                    &&& incident_in(t.adj, dx.source.0).contains(EdgeId(x))
                    &&& incident_in(t.adj, dx.target.0).contains(EdgeId(x))
                }
            } by {
                let dx = t.edges[x];
                if touches(dx, n.0) {
                    let j = choose|j: int| k1 <= j < list.len() && #[trigger] list[j] == EdgeId(x);
                    assert(j != k1);
                } else {
                    lemma_without_contains(incident_in(t0.adj, dx.source.0), e, EdgeId(x));
                    lemma_without_contains(incident_in(t0.adj, dx.target.0), e, EdgeId(x));
                }
            }
            assert forall|m: u64, i: int|
                0 <= i < incident_in(t.adj, m).len() implies {
                    let x = #[trigger] incident_in(t.adj, m)[i];
                    &&& t.edges.contains_key(x.0)
                    &&& touches(t.edges[x.0], m)
                } by {
                let x = incident_in(t.adj, m)[i];
                if m == o.0 {
                    let l = incident_in(t0.adj, m);
                    assert(without(l, e).contains(x));
                    lemma_without_contains(l, e, x);
                    let q = choose|q: int| 0 <= q < l.len() && l[q] == x;
                    assert(l[q] == x);
                } else {
                    assert(incident_in(t0.adj, m)[i] == x);
                    if x == e {
                        assert(touches(d, m));
                        assert(false);
                    }
                }
            }
        } else {
            assert forall|x: u64| #[trigger] t.edges.contains_key(x) implies {
                let dx = t.edges[x];
                touches(dx, n.0) ==> exists|j: int| k <= j < list.len() && #[trigger] list[j] == EdgeId(x)
            } by {
                let dx = t.edges[x];
                if touches(dx, n.0) {
                    let j = choose|j: int| k1 <= j < list.len() && #[trigger] list[j] == EdgeId(x);
                    assert(j != k1);
                }
            }
        }
    }
}

/// Deleting a node keeps the graph well formed and leaves no edge at it.
pub proof fn lemma_delete_node_wf(s: Scene, n: NodeId)
    requires
        s.wf(),
    ensures
        scene_delete_node(s, n).wf(),
        forall|e: u64| #[trigger] scene_delete_node(s, n).edges.contains_key(e) ==> !touches(scene_delete_node(s, n).edges[e], n.0),
        scene_delete_node(s, n).nodes == s.nodes.remove(n.0),
{
    if !s.nodes.contains_key(n.0) {
        assert(s.nodes.remove(n.0) =~= s.nodes);
        assert forall|e: u64| #[trigger] s.edges.contains_key(e) implies !touches(s.edges[e], n.0) by {}
        return;
    }
    let nc = s.nodes[n.0].chunk;
    let list = s.adj[n.0];
    let s1 = Scene {
        nodes: s.nodes.remove(n.0),
        grid: grid_remove_node(s.grid, n, nc),
        adj: s.adj.remove(n.0),
        ..s
    };
    assert(s1.adj.dom() =~= s1.nodes.dom());
    assert forall|j: int| 0 <= j < list.len() implies #[trigger] s.edges.contains_key(list[j].0) && touches(s.edges[list[j].0], n.0) by {
        assert(incident_in(s.adj, n.0)[j] == list[j]);
    }
    assert forall|e: u64| #[trigger] s1.edges.contains_key(e) implies {
        let d = s1.edges[e];
        &&& e < s1.next_edge
        &&& if touches(d, n.0) {
            exists|j: int| 0 <= j < list.len() && #[trigger] list[j] == EdgeId(e)
        } else {
            &&& s1.nodes.contains_key(d.source.0)
            &&& s1.nodes.contains_key(d.target.0)
            &&& incident_in(s1.adj, d.source.0).contains(EdgeId(e))
            &&& incident_in(s1.adj, d.target.0).contains(EdgeId(e))
        }
    } by {
        let d = s1.edges[e];
        if touches(d, n.0) {
            assert(incident_in(s.adj, n.0).contains(EdgeId(e)));
        } else {
            assert(incident_in(s1.adj, d.source.0) == incident_in(s.adj, d.source.0));
            assert(incident_in(s1.adj, d.target.0) == incident_in(s.adj, d.target.0));
        }
    }
    assert forall|m: u64, i: int|
        0 <= i < incident_in(s1.adj, m).len() implies {
            let x = #[trigger] incident_in(s1.adj, m)[i];
            &&& s1.edges.contains_key(x.0)
            &&& touches(s1.edges[x.0], m)
        } by {
        assert(incident_in(s1.adj, m)[i] == incident_in(s.adj, m)[i]);
    }
    assert(delete_progress(s, s1, n, list, 0));
    lemma_delete_steps(s, s1, n, nc, list, list.len());
    assert(list.take(list.len() as int) =~= list);
    let t = scene_delete_node(s, n);
    assert forall|e: u64| #[trigger] t.edges.contains_key(e) implies !touches(t.edges[e], n.0) by {
        if touches(t.edges[e], n.0) {
            let j = choose|j: int| list.len() <= j < list.len() && #[trigger] list[j] == EdgeId(e);
        }
    }
}

/// After a node is deleted no node has it as a neighbour.
pub proof fn lemma_deleted_node_is_nobodys_neighbor(s: Scene, n: NodeId, m: NodeId)
    requires
        s.wf(),
    ensures
        !scene_delete_node(s, n).is_neighbor(m, n),
        !scene_delete_node(s, n).nodes.contains_key(n.0),
{
    lemma_delete_node_wf(s, n);
    let t = scene_delete_node(s, n);
    if t.is_neighbor(m, n) {
        let j = choose|j: int| links_to(t.edges, t.adj, m, j, n);
        let x = incident_in(t.adj, m.0)[j];
        assert(touches(t.edges[x.0], m.0));
        assert(touches(t.edges[x.0], n.0));
    }
}

// ---------------------------------------------------------------- update node

/// Scene after removing the edges of `list` one by one.
pub open spec fn scene_remove_edges(s: Scene, list: Seq<EdgeId>) -> Scene
    decreases list.len(),
{
    if list.len() == 0 {
        s
    } else {
        scene_remove_edge(scene_remove_edges(s, list.drop_last()), list.last())
    }
}

/// The edges of `list` (in order) that exist and whose other end (seen from
/// `n`) is not in `desired`.
pub open spec fn edges_to_drop(edges: Map<u64, EdgeData>, list: Seq<EdgeId>, n: NodeId, desired: Seq<NodeId>) -> Seq<EdgeId>
    decreases list.len(),
{
    if list.len() == 0 {
        list
    } else {
        let rest = edges_to_drop(edges, list.drop_last(), n, desired);
        let e = list.last();
        if edges.contains_key(e.0) && !desired.contains(other_end(edges[e.0], n)) {
            rest.push(e)
        } else {
            rest
        }
    }
}

/// The entries of `desired` (in order, repeats kept) that are not neighbours of `n` in `s`.
pub open spec fn missing_neighbors(s: Scene, n: NodeId, desired: Seq<NodeId>) -> Seq<NodeId>
    decreases desired.len(),
{
    if desired.len() == 0 {
        desired
    } else {
        let rest = missing_neighbors(s, n, desired.drop_last());
        if !s.is_neighbor(n, desired.last()) {
            rest.push(desired.last())
        } else {
            rest
        }
    }
}

/// Scene after rewiring and updating node `n` (no change where it does not
/// exist): its incident edges to nodes outside `desired` are removed, its
/// fields take the new values (its render entity stays), and it moves to the
/// new chunk when the chunk changed.
pub open spec fn scene_update_node(s: Scene, n: NodeId, u: NodeFields, desired: Seq<NodeId>) -> Scene {
    if !s.nodes.contains_key(n.0) {
        s
    } else {
        let s1 = scene_remove_edges(s, edges_to_drop(s.edges, incident_in(s.adj, n.0), n, desired));
        let old_nd = s1.nodes[n.0];
        Scene {
            nodes: s1.nodes.insert(n.0, node_from_fields(u, old_nd.entity)),
            grid: if old_nd.chunk != u.chunk {
                grid_insert_node(grid_remove_node(s1.grid, n, old_nd.chunk), n, u.chunk)
            } else {
                s1.grid
            },
            ..s1
        }
    }
}

/// Updating a node gives it the update's name, data, colour, position and
/// chunk (its size measured from the new name), keeps its render entity, and
/// leaves every other node as it was.
pub proof fn lemma_update_sets_fields(s: Scene, n: NodeId, u: NodeFields, desired: Seq<NodeId>)
    requires
        s.nodes.contains_key(n.0),
    ensures
        ({
            let t = scene_update_node(s, n, u, desired);
            let d = t.nodes[n.0];
            &&& t.nodes.dom() == s.nodes.dom()
            &&& d.name == u.name
            &&& d.data == u.data
            &&& d.color == u.color
            &&& d.position == u.position
            &&& d.chunk == u.chunk
            &&& d.size == label_size(u.name@)
            &&& d.entity == s.nodes[n.0].entity
            &&& forall|m: u64| #[trigger] t.nodes.contains_key(m) && m != n.0 ==> t.nodes[m] == s.nodes[m]
        }),
{
    lemma_remove_edges_counter(s, edges_to_drop(s.edges, incident_in(s.adj, n.0), n, desired));
    let t = scene_update_node(s, n, u, desired);
    assert(t.nodes.dom() =~= s.nodes.dom());
}

pub fn contains_node(v: &Vec<NodeId>, x: NodeId) -> (r: bool)
    ensures
        r == v@.contains(x),
{
    let mut i: usize = 0;
    while i < v.len()
        invariant
            i <= v.len(),
            forall|j: int| 0 <= j < i ==> v@[j] != x,
        decreases v.len() - i,
    {
        if v[i] == x {
            assert(v@[i as int] == x);
            return true;
        }
        i = i + 1;
    }
    false
}

/// Rewires node `node_id` to `desired` and sets its fields. Edges to nodes
/// outside `desired` are removed at once; the returned ids are the entries of
/// `desired` (in order, repeats kept) that are not yet neighbours, for which
/// the caller issues edge additions. `None` when the node does not exist.
pub fn process_update_node_event(
    graph: &mut GraphData,
    grid: &mut SpatialGrid,
    node_id: NodeId,
    update: NodeFields,
    desired: &Vec<NodeId>,
) -> (r: Option<Vec<NodeId>>)
    ensures
        ({
            let s = scene(old(graph), old(grid));
            if s.nodes.contains_key(node_id.0) {
                &&& scene(final(graph), final(grid)) == scene_update_node(s, node_id, update, desired@)
                &&& r is Some
                &&& r.unwrap()@ == missing_neighbors(scene(final(graph), final(grid)), node_id, desired@)
            } else {
                &&& r is None
                &&& scene(final(graph), final(grid)) == s
            }
        }),
        old(graph).wf() ==> final(graph).wf(),
        old(graph).nodes@.contains_key(node_id.0) ==> {
            let d = final(graph).nodes@[node_id.0];
            &&& final(graph).nodes@.contains_key(node_id.0)
            &&& d.name == update.name
            &&& d.data == update.data
            &&& d.color == update.color
            &&& d.position == update.position
            &&& d.chunk == update.chunk
            &&& d.entity == old(graph).nodes@[node_id.0].entity
        },
{
    let ghost s = scene(graph, grid);
    let ghost u = update;
    proof {
        if s.nodes.contains_key(node_id.0) {
            lemma_update_sets_fields(s, node_id, update, desired@);
        }
    }
    if !graph.nodes.contains_key(&node_id.0) {
        return None;
    }
    // Incident edges that lead outside `desired`.
    let mut to_remove: Vec<EdgeId> = Vec::new();
    let ghost incident = incident_in(s.adj, node_id.0);
    match graph.adjacency.get(&node_id.0) {
        Some(list) => {
            let len = list.len();
            let mut i: usize = 0;
            assert(incident.take(0) =~= Seq::<EdgeId>::empty());
            while i < len
                invariant
                    len == list@.len(),
                    list@ == incident,
                    i <= len,
                    scene(graph, grid) == s,
                    to_remove@ == edges_to_drop(s.edges, incident.take(i as int), node_id, desired@),
                decreases len - i,
            {
                let eid = list[i];
                assert(incident.take(i + 1).drop_last() =~= incident.take(i as int));
                match graph.edges.get(&eid.0) {
                    Some(edge) => {
                        let other = if edge.source == node_id {
                            edge.target
                        } else {
                            edge.source
                        };
                        if !contains_node(desired, other) {
                            to_remove.push(eid);
                        }
                    },
                    None => {},
                }
                i = i + 1;
            }
            assert(incident.take(len as int) =~= incident);
        },
        None => {
            assert(incident =~= Seq::<EdgeId>::empty());
        },
    }
    let ghost drop_list = to_remove@;
    let n = to_remove.len();
    let mut k: usize = 0;
    assert(drop_list.take(0) =~= Seq::<EdgeId>::empty());
    while k < n
        invariant
            n == to_remove@.len(),
            to_remove@ == drop_list,
            k <= n,
            scene(graph, grid) == scene_remove_edges(s, drop_list.take(k as int)),
            s.wf() ==> scene(graph, grid).wf(),
            graph.nodes@ == s.nodes,
        decreases n - k,
    {
        let ghost before = scene(graph, grid);
        assert(drop_list.take(k + 1).drop_last() =~= drop_list.take(k as int));
        remove_single_edge(graph, grid, to_remove[k]);
        proof {
            lemma_remove_edge_wf(before, to_remove@[k as int]);
        }
        k = k + 1;
    }
    assert(drop_list.take(n as int) =~= drop_list);
    let ghost s1 = scene(graph, grid);
    let old_nd = graph.nodes.remove(&node_id.0).unwrap();
    let old_chunk = old_nd.chunk;
    let new_chunk = update.chunk;
    let new_nd = build_node(update, old_nd.entity);
    graph.nodes.insert(node_id.0, new_nd);
    if old_chunk != new_chunk {
        grid.remove_node(node_id, old_chunk);
        grid.insert_node(node_id, new_chunk);
    }
    proof {
        let t = scene(graph, grid);
        assert(t.nodes =~= scene_update_node(s, node_id, u, desired@).nodes);
        assert(t == scene_update_node(s, node_id, u, desired@));
        if s.wf() {
            assert(t.adj.dom() =~= t.nodes.dom());
        }
    }
    // Desired neighbours that are not yet neighbours.
    let now = graph.neighbor_node_ids(node_id);
    let mut missing: Vec<NodeId> = Vec::new();
    let dn = desired.len();
    let mut j: usize = 0;
    let ghost t = scene(graph, grid);
    assert(desired@.take(0) =~= Seq::<NodeId>::empty());
    while j < dn
        invariant
            dn == desired@.len(),
            j <= dn,
            t == scene(graph, grid),
            forall|m: NodeId| now@.contains(m) <==> t.is_neighbor(node_id, m),
            missing@ == missing_neighbors(t, node_id, desired@.take(j as int)),
        decreases dn - j,
    {
        let target = desired[j];
        assert(desired@.take(j + 1).drop_last() =~= desired@.take(j as int));
        if !contains_node(&now, target) {
            missing.push(target);
        }
        j = j + 1;
    }
    assert(desired@.take(dn as int) =~= desired@);
    Some(missing)
}

// ---------------------------------------------------------------- chunk moves

/// Grid after re-filing edge `e` of node `n`, which moved from chunk `from`
/// to chunk `to`: an inner edge becomes crossing (or the reverse) as the
/// neighbour's chunk now differs (or now matches), a crossing edge moves its
/// entry from `from` to `to`; the three chunks are marked dirty. No change
/// where the edge or the neighbour is missing.
pub open spec fn grid_refile_step(
    g: Map<u64, ChunkView>,
    nodes: Map<u64, NodeData>,
    edges: Map<u64, EdgeData>,
    n: NodeId,
    from: ChunkCoord,
    to: ChunkCoord,
    e: EdgeId,
) -> Map<u64, ChunkView> {
    if !edges.contains_key(e.0) || !nodes.contains_key(other_end(edges[e.0], n).0) {
        g
    } else {
        let nbc = nodes[other_end(edges[e.0], n).0].chunk;
        let was_same = from == nbc;
        let now_same = to == nbc;
        let g1 = if was_same && !now_same {
            grid_insert_cross_edge(grid_insert_cross_edge(grid_remove_edge(g, e, from), e, to), e, nbc)
        } else if !was_same && now_same {
            grid_insert_edge(grid_remove_cross_edge(grid_remove_cross_edge(g, e, from), e, nbc), e, to)
        } else if !was_same && !now_same {
            grid_insert_cross_edge(grid_remove_cross_edge(g, e, from), e, to)
        } else {
            g
        };
        grid_mark_dirty(grid_mark_dirty(grid_mark_dirty(g1, from), to), nbc)
    }
}

pub open spec fn grid_refile_steps(
    g: Map<u64, ChunkView>,
    nodes: Map<u64, NodeData>,
    edges: Map<u64, EdgeData>,
    n: NodeId,
    from: ChunkCoord,
    to: ChunkCoord,
    list: Seq<EdgeId>,
) -> Map<u64, ChunkView>
    decreases list.len(),
{
    if list.len() == 0 {
        g
    } else {
        grid_refile_step(grid_refile_steps(g, nodes, edges, n, from, to, list.drop_last()), nodes, edges, n, from, to, list.last())
    }
}

/// Grid after node `n` moved from chunk `from` to chunk `to`: the node entry
/// moves and each incident edge is re-filed in list order.
pub open spec fn grid_relocate(s: Scene, n: NodeId, from: ChunkCoord, to: ChunkCoord) -> Map<u64, ChunkView> {
    grid_refile_steps(
        grid_insert_node(grid_remove_node(s.grid, n, from), n, to),
        s.nodes,
        s.edges,
        n,
        from,
        to,
        incident_in(s.adj, n.0),
    )
}

/// Brings the grid in line with node `node_id` after its position (and so its
/// chunk) changed. `from` is the chunk the node was last filed under. Returns
/// the node's chunk when it differs from `from`; `None` (and no change) when
/// the node is missing or still in `from`.
pub fn sync_node_chunk(graph: &GraphData, grid: &mut SpatialGrid, node_id: NodeId, from: ChunkCoord) -> (r: Option<ChunkCoord>)
    ensures
        ({
            let s = scene(graph, old(grid));
            if s.nodes.contains_key(node_id.0) && s.nodes[node_id.0].chunk != from {
                &&& r == Some(s.nodes[node_id.0].chunk)
                &&& final(grid)@ == grid_relocate(s, node_id, from, s.nodes[node_id.0].chunk)
            } else {
                &&& r is None
                &&& final(grid)@ == old(grid)@
            }
        }),
{
    let ghost s = scene(graph, grid);
    let to = match graph.nodes.get(&node_id.0) {
        Some(d) => d.chunk,
        None => return None,
    };
    if to == from {
        return None;
    }
    grid.move_node(node_id, from, to);
    let ghost g0 = grid@;
    let ghost list = incident_in(s.adj, node_id.0);
    match graph.adjacency.get(&node_id.0) {
        Some(edge_ids) => {
            let len = edge_ids.len();
            let mut i: usize = 0;
            assert(list.take(0) =~= Seq::<EdgeId>::empty());
            while i < len
                invariant
                    len == edge_ids@.len(),
                    edge_ids@ == list,
                    i <= len,
                    s == scene(graph, old(grid)),
                    s.nodes.contains_key(node_id.0),
                    s.nodes[node_id.0].chunk == to,
                    grid@ == grid_refile_steps(g0, s.nodes, s.edges, node_id, from, to, list.take(i as int)),
                decreases len - i,
            {
                let eid = edge_ids[i];
                assert(list.take(i + 1).drop_last() =~= list.take(i as int));
                match graph.edges.get(&eid.0) {
                    Some(edge) => {
                        let nb = if edge.source == node_id {
                            edge.target
                        } else {
                            edge.source
                        };
                        match graph.nodes.get(&nb.0) {
                            Some(nbd) => {
                                let nbc = nbd.chunk;
                                let was_same = from == nbc;
                                let now_same = to == nbc;
                                if was_same && !now_same {
                                    grid.remove_edge(eid, from);
                                    grid.insert_cross_edge(eid, to);
                                    grid.insert_cross_edge(eid, nbc);
                                } else if !was_same && now_same {
                                    grid.remove_cross_edge(eid, from);
                                    grid.remove_cross_edge(eid, nbc);
                                    grid.insert_edge(eid, to);
                                } else if !was_same && !now_same {
                                    grid.remove_cross_edge(eid, from);
                                    grid.insert_cross_edge(eid, to);
                                }
                                grid.mark_dirty(from);
                                grid.mark_dirty(to);
                                grid.mark_dirty(nbc);
                            },
                            None => {},
                        }
                    },
                    None => {},
                }
                i = i + 1;
            }
            assert(list.take(len as int) =~= list);
        },
        None => {
            assert(list =~= Seq::<EdgeId>::empty());
        },
    }
    Some(to)
}

// ---------------------------------------------------------------- laws

/// A new edge makes its two ends neighbours of each other.
pub proof fn lemma_add_edge_connects(s: Scene, source: NodeId, target: NodeId, color: ColorBits)
    requires
        s.nodes.contains_key(source.0),
        s.nodes.contains_key(target.0),
    ensures
        scene_add_edge(s, source, target, color).is_neighbor(source, target),
        scene_add_edge(s, source, target, color).is_neighbor(target, source),
{
    let t = scene_add_edge(s, source, target, color);
    let e = EdgeId(s.next_edge);
    let ls = incident_in(t.adj, source.0);
    let lt = incident_in(t.adj, target.0);
    if source.0 == target.0 {
        assert(links_to(t.edges, t.adj, source, ls.len() - 1, target));
    } else {
        assert(ls[ls.len() - 1] == e);
        assert(lt[lt.len() - 1] == e);
        assert(links_to(t.edges, t.adj, source, ls.len() - 1, target));
        assert(links_to(t.edges, t.adj, target, lt.len() - 1, source));
    }
}

/// The nodes the returned list names are exactly the desired ones that are not neighbours.
pub proof fn lemma_missing_neighbors(s: Scene, n: NodeId, desired: Seq<NodeId>, t: NodeId)
    ensures
        missing_neighbors(s, n, desired).contains(t) <==> (desired.contains(t) && !s.is_neighbor(n, t)),
    decreases desired.len(),
{
    if desired.len() > 0 {
        lemma_missing_neighbors(s, n, desired.drop_last(), t);
        let rest = missing_neighbors(s, n, desired.drop_last());
        if desired.drop_last().contains(t) {
            let k = choose|k: int| 0 <= k < desired.drop_last().len() && desired.drop_last()[k] == t;
            assert(desired[k] == t);
        }
        if desired.contains(t) && t != desired.last() {
            let k = choose|k: int| 0 <= k < desired.len() && desired[k] == t;
            assert(desired.drop_last()[k] == t);
        }
        if !s.is_neighbor(n, desired.last()) {
            if rest.push(desired.last()).contains(t) && t != desired.last() {
                let k = choose|k: int| 0 <= k < rest.push(desired.last()).len() && rest.push(desired.last())[k] == t;
                assert(rest[k] == t);
            }
            if rest.contains(t) {
                let k = choose|k: int| 0 <= k < rest.len() && rest[k] == t;
                assert(rest.push(desired.last())[k] == t);
            }
            assert(rest.push(desired.last())[rest.len() as int] == desired.last());
        }
        assert(desired[desired.len() - 1] == desired.last());
    }
}

/// What holds part-way through removing the edges of `list` from `s`:
/// entries of the lists exist and touch their node, the lists only shrink,
/// and the removed edges are gone.
pub(crate) proof fn lemma_remove_edges_shrinks(s: Scene, list: Seq<EdgeId>, k: nat)
    requires
        s.wf(),
        k <= list.len(),
    ensures
        scene_remove_edges(s, list.take(k as int)).wf(),
        scene_remove_edges(s, list.take(k as int)).nodes == s.nodes,
        forall|x: u64| #[trigger] scene_remove_edges(s, list.take(k as int)).edges.contains_key(x) ==> s.edges.contains_key(x)
            && scene_remove_edges(s, list.take(k as int)).edges[x] == s.edges[x],
        forall|j: int| 0 <= j < k ==> !(#[trigger] scene_remove_edges(s, list.take(k as int)).edges.contains_key(list[j].0)),
    decreases k,
{
    if k == 0 {
        assert(list.take(0) =~= Seq::<EdgeId>::empty());
    } else {
        let k1 = (k - 1) as nat;
        lemma_remove_edges_shrinks(s, list, k1);
        let pre = list.take(k as int);
        assert(pre.drop_last() =~= list.take(k1 as int));
        let t0 = scene_remove_edges(s, list.take(k1 as int));
        lemma_remove_edge_wf(t0, list[k1 as int]);
    }
}

/// After a node is rewired to `desired`, every neighbour it keeps is desired.
pub proof fn lemma_update_neighbors_within_desired(s: Scene, n: NodeId, u: NodeFields, desired: Seq<NodeId>, m: NodeId)
    requires
        s.wf(),
        s.nodes.contains_key(n.0),
        scene_update_node(s, n, u, desired).is_neighbor(n, m),
    ensures
        desired.contains(m),
{
    let list = incident_in(s.adj, n.0);
    let drop = edges_to_drop(s.edges, list, n, desired);
    lemma_remove_edges_shrinks(s, drop, drop.len());
    assert(drop.take(drop.len() as int) =~= drop);
    let s1 = scene_remove_edges(s, drop);
    let t = scene_update_node(s, n, u, desired);
    assert(t.edges == s1.edges && t.adj == s1.adj);
    let j = choose|j: int| links_to(t.edges, t.adj, n, j, m);
    let e = incident_in(t.adj, n.0)[j];
    let d = s.edges[e.0];
    assert(s1.edges[e.0] == d);
    assert(touches(d, n.0));
    assert(incident_in(s.adj, n.0).contains(e));
    if !desired.contains(m) {
        lemma_edges_to_drop_covers(s.edges, list, n, desired, e);
        let q = choose|q: int| 0 <= q < drop.len() && drop[q] == e;
        assert(!s1.edges.contains_key(drop[q].0));
    }
}

/// Every existing edge of `list` leading outside `desired` is in the drop list.
pub(crate) proof fn lemma_edges_to_drop_covers(edges: Map<u64, EdgeData>, list: Seq<EdgeId>, n: NodeId, desired: Seq<NodeId>, e: EdgeId)
    requires
        list.contains(e),
        edges.contains_key(e.0),
        !desired.contains(other_end(edges[e.0], n)),
    ensures
        edges_to_drop(edges, list, n, desired).contains(e),
    decreases list.len(),
{
    let rest = edges_to_drop(edges, list.drop_last(), n, desired);
    if list.last() == e {
        assert(edges_to_drop(edges, list, n, desired) == rest.push(e));
        assert(rest.push(e)[rest.len() as int] == e);
    } else {
        let k = choose|k: int| 0 <= k < list.len() && list[k] == e;
        assert(list.drop_last()[k] == e);
        lemma_edges_to_drop_covers(edges, list.drop_last(), n, desired, e);
        let q = choose|q: int| 0 <= q < rest.len() && rest[q] == e;
        if edges.contains_key(list.last().0) && !desired.contains(other_end(edges[list.last().0], n)) {
            assert(rest.push(list.last())[q] == e);
        }
    }
}

/// Rewiring keeps the graph well formed and the set of nodes.
pub proof fn lemma_update_wf(s: Scene, n: NodeId, u: NodeFields, desired: Seq<NodeId>)
    requires
        s.wf(),
    ensures
        scene_update_node(s, n, u, desired).wf(),
        scene_update_node(s, n, u, desired).nodes.dom() == s.nodes.dom(),
        scene_update_node(s, n, u, desired).next_edge == s.next_edge,
{
    if s.nodes.contains_key(n.0) {
        let drop = edges_to_drop(s.edges, incident_in(s.adj, n.0), n, desired);
        lemma_remove_edges_shrinks(s, drop, drop.len());
        assert(drop.take(drop.len() as int) =~= drop);
        lemma_remove_edges_counter(s, drop);
        let t = scene_update_node(s, n, u, desired);
        assert(t.nodes.dom() =~= s.nodes.dom());
    }
}

proof fn lemma_remove_edges_counter(s: Scene, list: Seq<EdgeId>)
    ensures
        scene_remove_edges(s, list).next_edge == s.next_edge,
        scene_remove_edges(s, list).nodes == s.nodes,
    decreases list.len(),
{
    if list.len() > 0 {
        lemma_remove_edges_counter(s, list.drop_last());
    }
}

/// Adding an edge keeps every existing neighbour relation, and adds only
/// the one between its two ends.
pub proof fn lemma_add_edge_neighbors(s: Scene, a: NodeId, b: NodeId, c: ColorBits, x: NodeId, y: NodeId)
    requires
        s.wf(),
        s.nodes.contains_key(a.0),
        s.nodes.contains_key(b.0),
    ensures
        scene_add_edge(s, a, b, c).is_neighbor(x, y) <==> (s.is_neighbor(x, y) || (x == a && y == b) || (x == b && y == a)),
{
    let t = scene_add_edge(s, a, b, c);
    let e = EdgeId(s.next_edge);
    assert(!s.edges.contains_key(e.0));
    lemma_add_edge_connects(s, a, b, c);
    let lo = incident_in(s.adj, x.0);
    let ln = incident_in(t.adj, x.0);
    assert forall|j: int| 0 <= j < lo.len() implies ln[j] == lo[j] by {}
    if s.is_neighbor(x, y) {
        let j = choose|j: int| links_to(s.edges, s.adj, x, j, y);
        assert(ln[j] == lo[j]);
        assert(links_to(t.edges, t.adj, x, j, y));
    }
    if t.is_neighbor(x, y) {
        let j = choose|j: int| links_to(t.edges, t.adj, x, j, y);
        if j < lo.len() && ln[j] != e {
            assert(ln[j] == lo[j]);
            assert(links_to(s.edges, s.adj, x, j, y));
        } else {
            assert(ln[j] == e) by {
                if j >= lo.len() {
                    if x.0 == a.0 && x.0 == b.0 {
                        assert(ln == lo.push(e).push(e));
                    } else if x.0 == a.0 || x.0 == b.0 {
                        assert(ln == lo.push(e));
                    }
                }
            }
        }
    }
}

/// The graph after edges from `n` to each of `targets` are added in order,
/// each only where both ends exist.
pub open spec fn scene_connect_all(s: Scene, n: NodeId, targets: Seq<NodeId>, color: ColorBits) -> Scene
    decreases targets.len(),
{
    if targets.len() == 0 {
        s
    } else {
        let s0 = scene_connect_all(s, n, targets.drop_last(), color);
        let t = targets.last();
        if s0.nodes.contains_key(n.0) && s0.nodes.contains_key(t.0) {
            scene_add_edge(s0, n, t, color)
        } else {
            s0
        }
    }
}

proof fn lemma_connect_all(s: Scene, n: NodeId, targets: Seq<NodeId>, color: ColorBits)
    requires
        s.wf(),
        s.nodes.contains_key(n.0),
        s.next_edge + targets.len() < u64::MAX,
    ensures
        scene_connect_all(s, n, targets, color).wf(),
        scene_connect_all(s, n, targets, color).nodes == s.nodes,
        scene_connect_all(s, n, targets, color).next_edge <= s.next_edge + targets.len(),
        forall|m: NodeId| #[trigger] scene_connect_all(s, n, targets, color).is_neighbor(n, m) <==> (s.is_neighbor(n, m) || (
        targets.contains(m) && s.nodes.contains_key(m.0))),
    decreases targets.len(),
{
    if targets.len() > 0 {
        let pre = targets.drop_last();
        lemma_connect_all(s, n, pre, color);
        let s0 = scene_connect_all(s, n, pre, color);
        let t = targets.last();
        if s0.nodes.contains_key(t.0) {
            lemma_add_edge_wf(s0, n, t, color);
        }
        assert forall|m: NodeId| #[trigger] scene_connect_all(s, n, targets, color).is_neighbor(n, m) <==> (s.is_neighbor(n, m) || (
        targets.contains(m) && s.nodes.contains_key(m.0))) by {
            if pre.contains(m) {
                let k = choose|k: int| 0 <= k < pre.len() && pre[k] == m;
                assert(targets[k] == m);
            }
            if targets.contains(m) && m != t {
                let k = choose|k: int| 0 <= k < targets.len() && targets[k] == m;
                assert(pre[k] == m);
            }
            assert(targets[targets.len() - 1] == t);
            if s0.nodes.contains_key(t.0) {
                lemma_add_edge_neighbors(s0, n, t, color, n, m);
            }
        }
    }
}

/// Rewiring node `n` to `desired` and then adding the edges it asks for
/// leaves `n` with exactly the desired nodes that exist as neighbours.
pub proof fn lemma_rewire_reaches_desired(
    s: Scene,
    n: NodeId,
    u: NodeFields,
    desired: Seq<NodeId>,
    color: ColorBits,
    m: NodeId,
)
    requires
        s.wf(),
        s.nodes.contains_key(n.0),
        s.next_edge + desired.len() < u64::MAX,
    ensures
        ({
            let t = scene_update_node(s, n, u, desired);
            scene_connect_all(t, n, missing_neighbors(t, n, desired), color).is_neighbor(n, m) <==> (desired.contains(m)
                && s.nodes.contains_key(m.0))
        }),
{
    let t = scene_update_node(s, n, u, desired);
    lemma_update_wf(s, n, u, desired);
    let missing = missing_neighbors(t, n, desired);
    lemma_missing_len(t, n, desired);
    assert(t.nodes.contains_key(n.0));
    lemma_connect_all(t, n, missing, color);
    lemma_missing_neighbors(t, n, desired, m);
    if t.is_neighbor(n, m) {
        lemma_update_neighbors_within_desired(s, n, u, desired, m);
        let j = choose|j: int| links_to(t.edges, t.adj, n, j, m);
        let e = incident_in(t.adj, n.0)[j];
        assert(t.nodes.contains_key(m.0)) by {
            let d = t.edges[e.0];
            assert(touches(d, n.0));
        }
    }
    assert(t.nodes.contains_key(m.0) == s.nodes.contains_key(m.0));
}

proof fn lemma_missing_len(s: Scene, n: NodeId, desired: Seq<NodeId>)
    ensures
        missing_neighbors(s, n, desired).len() <= desired.len(),
    decreases desired.len(),
{
    if desired.len() > 0 {
        lemma_missing_len(s, n, desired.drop_last());
    }
}

/// Nothing is dropped from `list` when every existing edge in it leads to a
/// desired node.
proof fn lemma_nothing_to_drop(edges: Map<u64, EdgeData>, list: Seq<EdgeId>, n: NodeId, desired: Seq<NodeId>)
    requires
        forall|j: int|
            0 <= j < list.len() && edges.contains_key(#[trigger] list[j].0) ==> desired.contains(other_end(edges[list[j].0], n)),
    ensures
        edges_to_drop(edges, list, n, desired).len() == 0,
    decreases list.len(),
{
    if list.len() > 0 {
        let rest = list.drop_last();
        assert forall|j: int|
            0 <= j < rest.len() && edges.contains_key(#[trigger] rest[j].0) implies desired.contains(
            other_end(edges[rest[j].0], n),
        ) by {
            assert(rest[j] == list[j]);
        }
        lemma_nothing_to_drop(edges, rest, n, desired);
        assert(list[list.len() - 1] == list.last());
    }
}

/// Updating a node with every current neighbour among the desired ones keeps
/// every edge; when the desired ones are exactly current neighbours, no edge
/// is left to add either.
pub proof fn lemma_update_keeping_neighbors(s: Scene, n: NodeId, u: NodeFields, desired: Seq<NodeId>)
    requires
        forall|m: NodeId| s.is_neighbor(n, m) ==> desired.contains(m),
    ensures
        scene_update_node(s, n, u, desired).edges == s.edges,
        scene_update_node(s, n, u, desired).adj == s.adj,
        scene_update_node(s, n, u, desired).nodes.dom() == s.nodes.dom(),
        (forall|m: NodeId| desired.contains(m) ==> s.is_neighbor(n, m)) ==> missing_neighbors(
            scene_update_node(s, n, u, desired),
            n,
            desired,
        ).len() == 0,
{
    let t = scene_update_node(s, n, u, desired);
    if s.nodes.contains_key(n.0) {
        let list = incident_in(s.adj, n.0);
        assert forall|j: int|
            0 <= j < list.len() && s.edges.contains_key(#[trigger] list[j].0) implies desired.contains(
            other_end(s.edges[list[j].0], n),
        ) by {
            assert(links_to(s.edges, s.adj, n, j, other_end(s.edges[list[j].0], n)));
        }
        lemma_nothing_to_drop(s.edges, list, n, desired);
        let drop = edges_to_drop(s.edges, list, n, desired);
        assert(drop =~= Seq::<EdgeId>::empty());
        assert(scene_remove_edges(s, drop) == s);
        assert(t.nodes.dom() =~= s.nodes.dom());
    }
    if forall|m: NodeId| desired.contains(m) ==> s.is_neighbor(n, m) {
        let missing = missing_neighbors(t, n, desired);
        if missing.len() > 0 {
            let x = missing[0];
            lemma_missing_neighbors(t, n, desired, x);
            assert(missing.contains(x));
            assert(t.is_neighbor(n, x) == s.is_neighbor(n, x));
        }
    }
}

/// Nodes waiting for an incremental layout step, oldest first.
pub struct LayoutState {
    pub pending_nodes: Vec<NodeId>,
}

/// Nodes handled by one incremental layout step at most.
pub const LAYOUT_BATCH: usize = 100;

/// Takes the oldest pending nodes, at most `LAYOUT_BATCH` of them, off the queue.
pub fn take_pending_batch(layout: &mut LayoutState) -> (batch: Vec<NodeId>)
    ensures
        ({
            let q = old(layout).pending_nodes@;
            let k = if q.len() < LAYOUT_BATCH { q.len() as int } else { LAYOUT_BATCH as int };
            &&& batch@ == q.take(k)
            &&& final(layout).pending_nodes@ == q.skip(k)
        }),
{
    let n = layout.pending_nodes.len();
    let k: usize = if n < LAYOUT_BATCH {
        n
    } else {
        LAYOUT_BATCH
    };
    let mut batch: Vec<NodeId> = Vec::new();
    let mut rest: Vec<NodeId> = Vec::new();
    let mut i: usize = 0;
    while i < n
        invariant
            n == layout.pending_nodes@.len(),
            k <= n,
            i <= n,
            i <= k ==> batch@ == layout.pending_nodes@.take(i as int) && rest@.len() == 0,
            i > k ==> batch@ == layout.pending_nodes@.take(k as int) && rest@ == layout.pending_nodes@.subrange(
                k as int,
                i as int,
            ),
        decreases n - i,
    {
        let x = layout.pending_nodes[i];
        if i < k {
            batch.push(x);
            assert(layout.pending_nodes@.take(i + 1) =~= layout.pending_nodes@.take(i as int).push(x));
        } else {
            rest.push(x);
            assert(layout.pending_nodes@.subrange(k as int, i + 1) =~= layout.pending_nodes@.subrange(k as int, i as int).push(x));
        }
        i = i + 1;
    }
    proof {
        if n <= k {
            assert(layout.pending_nodes@.take(n as int) =~= layout.pending_nodes@.take(k as int));
            assert(layout.pending_nodes@.skip(k as int) =~= rest@);
        } else {
            assert(layout.pending_nodes@.subrange(k as int, n as int) =~= layout.pending_nodes@.skip(k as int));
        }
    }
    layout.pending_nodes = rest;
    batch
}

/// Removing the edge that was just added gives back the graph's edges,
/// incidence lists and nodes.
pub proof fn lemma_remove_undoes_add_edge(s: Scene, source: NodeId, target: NodeId, color: ColorBits)
    requires
        s.wf(),
        s.nodes.contains_key(source.0),
        s.nodes.contains_key(target.0),
    ensures
        ({
            let t = scene_remove_edge(scene_add_edge(s, source, target, color), EdgeId(s.next_edge));
            &&& t.edges == s.edges
            &&& t.adj == s.adj
            &&& t.nodes == s.nodes
        }),
{
    let e = EdgeId(s.next_edge);
    let t1 = scene_add_edge(s, source, target, color);
    let t = scene_remove_edge(t1, e);
    assert(!s.edges.contains_key(e.0));
    assert(t.edges =~= s.edges);
    assert forall|n: u64| s.adj.contains_key(n) implies !s.adj[n].contains(e) by {
        if s.adj[n].contains(e) {
            let i = choose|i: int| 0 <= i < s.adj[n].len() && s.adj[n][i] == e;
            assert(incident_in(s.adj, n)[i] == e);
        }
    }
    let ls = s.adj[source.0];
    let lt = s.adj[target.0];
    lemma_without_absent(ls, e);
    lemma_without_absent(lt, e);
    assert(ls.push(e).drop_last() =~= ls);
    assert(without(ls.push(e), e) == ls);
    if source.0 == target.0 {
        assert(ls.push(e).push(e).drop_last() =~= ls.push(e));
        assert(without(ls.push(e).push(e), e) == ls);
    } else {
        assert(lt.push(e).drop_last() =~= lt);
        assert(without(lt.push(e), e) == lt);
    }
    assert(t.adj =~= s.adj);
}

} // verus!