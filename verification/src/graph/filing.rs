//! The grid indexes the graph: each node is listed among the nodes of the
//! chunk it sits in, and each edge is listed as an inner edge of the chunk
//! both its ends share, or as a crossing edge of both its ends' chunks.
//! The edit operations keep this so (rewiring a node that moves to another
//! chunk keeps it only when no edge of the node is kept). They also keep the
//! grid exact, listing each edge only where it is filed (moving a node keeps
//! that only when the node has no self-loop), and on an exact grid deleting
//! a node leaves the ids of its edges in no list.

use vstd::prelude::*;

use crate::graph::model::{incident_in, links_to, other_end, touches, ColorBits, EdgeData, EdgeId, NodeData, NodeId, Vec2Bits};
use crate::graph::systems::{
    chunk_or, edges_to_drop, grid_link, grid_refile_step, grid_refile_steps, grid_relocate, grid_unlink,
    scene_add_edge, scene_add_node, scene_delete_node, scene_delete_step, scene_delete_steps, scene_remove_edge,
    scene_remove_edges, scene_update_node, NodeFields, Scene,
};
use crate::seqs::lemma_without_contains;
use crate::spatial::grid::{
    cell_of, grid_insert_cross_edge, grid_insert_edge, grid_insert_node, grid_mark_dirty, grid_remove_cross_edge,
    grid_remove_edge, grid_remove_node, ChunkCoord, ChunkView,
};

verus! {

/// Every node of `s` is listed in the node list of its chunk.
pub open spec fn nodes_filed(s: Scene) -> bool {
    forall|k: u64| #[trigger] s.nodes.contains_key(k) ==> cell_of(s.grid, s.nodes[k].chunk).node_ids.contains(NodeId(k))
}

/// The two grids list the same nodes in every chunk.
pub open spec fn same_node_lists(g1: Map<u64, ChunkView>, g2: Map<u64, ChunkView>) -> bool {
    forall|c: ChunkCoord| #[trigger] cell_of(g1, c).node_ids == cell_of(g2, c).node_ids
}

proof fn lemma_edge_filing_keeps_node_lists(g: Map<u64, ChunkView>, e: EdgeId, c: ChunkCoord)
    ensures
        same_node_lists(g, grid_insert_edge(g, e, c)),
        same_node_lists(g, grid_insert_cross_edge(g, e, c)),
        same_node_lists(g, grid_remove_edge(g, e, c)),
        same_node_lists(g, grid_remove_cross_edge(g, e, c)),
{
}

proof fn lemma_link_keeps_node_lists(g: Map<u64, ChunkView>, e: EdgeId, sc: ChunkCoord, tc: ChunkCoord)
    ensures
        same_node_lists(g, grid_link(g, e, sc, tc)),
        same_node_lists(g, grid_unlink(g, e, sc, tc)),
{
    lemma_edge_filing_keeps_node_lists(g, e, sc);
    lemma_edge_filing_keeps_node_lists(grid_insert_cross_edge(g, e, sc), e, tc);
    lemma_edge_filing_keeps_node_lists(grid_remove_cross_edge(g, e, sc), e, tc);
}

proof fn lemma_same_lists_keep_filing(s: Scene, g: Map<u64, ChunkView>)
    requires
        nodes_filed(s),
        same_node_lists(s.grid, g),
    ensures
        nodes_filed(Scene { grid: g, ..s }),
{
    assert forall|k: u64| #[trigger] s.nodes.contains_key(k) implies cell_of(g, s.nodes[k].chunk).node_ids.contains(
        NodeId(k),
    ) by {
        assert(cell_of(s.grid, s.nodes[k].chunk).node_ids == cell_of(g, s.nodes[k].chunk).node_ids);
    }
}

/// Filing a node in a chunk keeps every node listed where it was.
proof fn lemma_insert_node_keeps_lists(g: Map<u64, ChunkView>, id: NodeId, c: ChunkCoord, d: ChunkCoord, m: NodeId)
    requires
        cell_of(g, d).node_ids.contains(m),
    ensures
        cell_of(grid_insert_node(g, id, c), d).node_ids.contains(m),
{
    let l = cell_of(g, d).node_ids;
    if c.spec_key() == d.spec_key() {
        let i = choose|i: int| 0 <= i < l.len() && l[i] == m;
        assert(l.push(id)[i] == m);
    }
}

/// Taking node `id` out of a chunk keeps every other node listed where it was.
proof fn lemma_remove_node_keeps_lists(g: Map<u64, ChunkView>, id: NodeId, c: ChunkCoord, d: ChunkCoord, m: NodeId)
    requires
        cell_of(g, d).node_ids.contains(m),
        m != id,
    ensures
        cell_of(grid_remove_node(g, id, c), d).node_ids.contains(m),
{
    lemma_without_contains(cell_of(g, d).node_ids, id, m);
}

/// Adding a node keeps every node filed.
pub proof fn lemma_add_node_keeps_filing(s: Scene, id: NodeId, d: NodeData)
    requires
        nodes_filed(s),
    ensures
        nodes_filed(scene_add_node(s, id, d)),
{
    let t = scene_add_node(s, id, d);
    assert forall|k: u64| #[trigger] t.nodes.contains_key(k) implies cell_of(t.grid, t.nodes[k].chunk).node_ids.contains(
        NodeId(k),
    ) by {
        if k == id.0 {
            let l = cell_of(s.grid, d.chunk).node_ids;
            assert(l.push(id)[l.len() as int] == id);
        } else {
            lemma_insert_node_keeps_lists(s.grid, id, d.chunk, s.nodes[k].chunk, NodeId(k));
        }
    }
}

/// Connecting two nodes keeps every node filed.
pub proof fn lemma_add_edge_keeps_filing(s: Scene, source: NodeId, target: NodeId, color: ColorBits)
    requires
        nodes_filed(s),
    ensures
        nodes_filed(scene_add_edge(s, source, target, color)),
{
    let e = EdgeId(s.next_edge);
    lemma_link_keeps_node_lists(s.grid, e, s.nodes[source.0].chunk, s.nodes[target.0].chunk);
    lemma_same_lists_keep_filing(s, scene_add_edge(s, source, target, color).grid);
}

/// Removing an edge keeps every node filed.
pub proof fn lemma_remove_edge_keeps_filing(s: Scene, e: EdgeId)
    requires
        nodes_filed(s),
    ensures
        nodes_filed(scene_remove_edge(s, e)),
{
    if s.edges.contains_key(e.0) {
        let d = s.edges[e.0];
        if s.nodes.contains_key(d.source.0) && s.nodes.contains_key(d.target.0) {
            lemma_link_keeps_node_lists(s.grid, e, s.nodes[d.source.0].chunk, s.nodes[d.target.0].chunk);
        }
        lemma_same_lists_keep_filing(s, scene_remove_edge(s, e).grid);
    }
}

proof fn lemma_remove_edges_keeps_filing(s: Scene, list: Seq<EdgeId>)
    requires
        nodes_filed(s),
    ensures
        nodes_filed(scene_remove_edges(s, list)),
        scene_remove_edges(s, list).nodes == s.nodes,
    decreases list.len(),
{
    if list.len() > 0 {
        lemma_remove_edges_keeps_filing(s, list.drop_last());
        lemma_remove_edge_keeps_filing(scene_remove_edges(s, list.drop_last()), list.last());
    }
}

proof fn lemma_delete_steps_keep_filing(s: Scene, n: NodeId, nc: ChunkCoord, list: Seq<EdgeId>)
    requires
        nodes_filed(s),
    ensures
        nodes_filed(scene_delete_steps(s, n, nc, list)),
        scene_delete_steps(s, n, nc, list).nodes == s.nodes,
    decreases list.len(),
{
    if list.len() > 0 {
        lemma_delete_steps_keep_filing(s, n, nc, list.drop_last());
        let t = scene_delete_steps(s, n, nc, list.drop_last());
        let e = list.last();
        if t.edges.contains_key(e.0) {
            let step = scene_delete_step(t, n, nc, e);
            let d = t.edges[e.0];
            let sc = if d.source == n { nc } else { chunk_or(t.nodes, d.source, nc) };
            let tc = if d.target == n { nc } else { chunk_or(t.nodes, d.target, nc) };
            lemma_link_keeps_node_lists(t.grid, e, sc, tc);
            assert(step.grid == grid_unlink(t.grid, e, sc, tc));
            lemma_same_lists_keep_filing(t, step.grid);
        }
    }
}

/// Deleting a node keeps every remaining node filed.
pub proof fn lemma_delete_node_keeps_filing(s: Scene, n: NodeId)
    requires
        nodes_filed(s),
    ensures
        nodes_filed(scene_delete_node(s, n)),
{
    if s.nodes.contains_key(n.0) {
        let nc = s.nodes[n.0].chunk;
        let s1 = Scene { nodes: s.nodes.remove(n.0), grid: grid_remove_node(s.grid, n, nc), ..s };
        assert forall|k: u64| #[trigger] s1.nodes.contains_key(k) implies cell_of(s1.grid, s1.nodes[k].chunk).node_ids.contains(
            NodeId(k),
        ) by {
            assert(s.nodes.contains_key(k));
            lemma_remove_node_keeps_lists(s.grid, n, nc, s.nodes[k].chunk, NodeId(k));
        }
        if s.adj.contains_key(n.0) {
            let s2 = Scene { adj: s1.adj.remove(n.0), ..s1 };
            assert(nodes_filed(s2));
            lemma_delete_steps_keep_filing(s2, n, nc, s.adj[n.0]);
        }
    }
}

/// Rewiring and updating a node keeps every node filed.
pub proof fn lemma_update_node_keeps_filing(s: Scene, n: NodeId, u: NodeFields, desired: Seq<NodeId>)
    requires
        nodes_filed(s),
    ensures
        nodes_filed(scene_update_node(s, n, u, desired)),
{
    if s.nodes.contains_key(n.0) {
        let drop = edges_to_drop(s.edges, incident_in(s.adj, n.0), n, desired);
        lemma_remove_edges_keeps_filing(s, drop);
        let s1 = scene_remove_edges(s, drop);
        let old_nd = s1.nodes[n.0];
        let t = scene_update_node(s, n, u, desired);
        assert forall|k: u64| #[trigger] t.nodes.contains_key(k) implies cell_of(t.grid, t.nodes[k].chunk).node_ids.contains(
            NodeId(k),
        ) by {
            if old_nd.chunk != u.chunk {
                let g0 = grid_remove_node(s1.grid, n, old_nd.chunk);
                if k == n.0 {
                    let l = cell_of(g0, u.chunk).node_ids;
                    assert(l.push(n)[l.len() as int] == n);
                } else {
                    lemma_remove_node_keeps_lists(s1.grid, n, old_nd.chunk, s1.nodes[k].chunk, NodeId(k));
                    lemma_insert_node_keeps_lists(g0, n, u.chunk, s1.nodes[k].chunk, NodeId(k));
                }
            } else {
                assert(s1.nodes.contains_key(k));
            }
        }
    }
}

proof fn lemma_refile_steps_keep_node_lists(
    g: Map<u64, ChunkView>,
    nodes: Map<u64, NodeData>,
    edges: Map<u64, EdgeData>,
    n: NodeId,
    from: ChunkCoord,
    to: ChunkCoord,
    list: Seq<EdgeId>,
)
    ensures
        same_node_lists(g, grid_refile_steps(g, nodes, edges, n, from, to, list)),
    decreases list.len(),
{
    if list.len() > 0 {
        let g0 = grid_refile_steps(g, nodes, edges, n, from, to, list.drop_last());
        lemma_refile_steps_keep_node_lists(g, nodes, edges, n, from, to, list.drop_last());
        let e = list.last();
        if edges.contains_key(e.0) && nodes.contains_key(other_end(edges[e.0], n).0) {
            let nbc = nodes[other_end(edges[e.0], n).0].chunk;
            lemma_edge_filing_keeps_node_lists(g0, e, from);
            lemma_edge_filing_keeps_node_lists(grid_remove_edge(g0, e, from), e, to);
            lemma_edge_filing_keeps_node_lists(grid_insert_cross_edge(grid_remove_edge(g0, e, from), e, to), e, nbc);
            lemma_edge_filing_keeps_node_lists(grid_remove_cross_edge(g0, e, from), e, nbc);
            lemma_edge_filing_keeps_node_lists(grid_remove_cross_edge(grid_remove_cross_edge(g0, e, from), e, nbc), e, to);
            lemma_edge_filing_keeps_node_lists(grid_remove_cross_edge(g0, e, from), e, to);
            let g2 = grid_refile_step(g0, nodes, edges, n, from, to, e);
            assert(same_node_lists(g0, g2));
        }
    }
}

/// Moving a node to a position in another chunk (`set_position`) and then
/// bringing the grid in line from its old chunk (`sync_node_chunk`) leaves
/// every node filed.
pub proof fn lemma_move_and_sync_keeps_filing(s: Scene, n: NodeId, position: Vec2Bits, to: ChunkCoord)
    requires
        nodes_filed(s),
        s.nodes.contains_key(n.0),
    ensures
        ({
            let from = s.nodes[n.0].chunk;
            let t = Scene { nodes: s.nodes.insert(n.0, NodeData { position, chunk: to, ..s.nodes[n.0] }), ..s };
            let g = if to != from { grid_relocate(t, n, from, to) } else { t.grid };
            nodes_filed(Scene { grid: g, ..t })
        }),
{
    let from = s.nodes[n.0].chunk;
    let t = Scene { nodes: s.nodes.insert(n.0, NodeData { position, chunk: to, ..s.nodes[n.0] }), ..s };
    if to != from {
        let g0 = grid_insert_node(grid_remove_node(t.grid, n, from), n, to);
        lemma_refile_steps_keep_node_lists(g0, t.nodes, t.edges, n, from, to, incident_in(t.adj, n.0));
        let g = grid_relocate(t, n, from, to);
        assert forall|k: u64| #[trigger] t.nodes.contains_key(k) implies cell_of(g, t.nodes[k].chunk).node_ids.contains(
            NodeId(k),
        ) by {
            assert(cell_of(g0, t.nodes[k].chunk).node_ids == cell_of(g, t.nodes[k].chunk).node_ids);
            if k == n.0 {
                let l = cell_of(grid_remove_node(t.grid, n, from), to).node_ids;
                assert(l.push(n)[l.len() as int] == n);
            } else {
                lemma_remove_node_keeps_lists(t.grid, n, from, s.nodes[k].chunk, NodeId(k));
                lemma_insert_node_keeps_lists(grid_remove_node(t.grid, n, from), n, to, s.nodes[k].chunk, NodeId(k));
            }
        }
    }
}

// ---------------------------------------------------------------- edges

/// Edge `e` is filed for ends in chunks `sc` and `tc`: as an inner edge of
/// their chunk when they share one, else as a crossing edge of both.
pub open spec fn edge_filed_at(g: Map<u64, ChunkView>, e: EdgeId, sc: ChunkCoord, tc: ChunkCoord) -> bool {
    if sc == tc {
        cell_of(g, sc).edge_ids.contains(e)
    } else {
        cell_of(g, sc).cross_edges.contains(e) && cell_of(g, tc).cross_edges.contains(e)
    }
}

/// Every edge of `s` whose ends both exist is filed by its ends' chunks.
pub open spec fn edges_filed(s: Scene) -> bool {
    forall|k: u64|
        #[trigger] s.edges.contains_key(k) && s.nodes.contains_key(s.edges[k].source.0) && s.nodes.contains_key(
            s.edges[k].target.0,
        ) ==> edge_filed_at(
            s.grid,
            EdgeId(k),
            s.nodes[s.edges[k].source.0].chunk,
            s.nodes[s.edges[k].target.0].chunk,
        )
}

/// Every listing of edge `x` in `g1` is still there in `g2`.
pub open spec fn keeps_edge(g1: Map<u64, ChunkView>, g2: Map<u64, ChunkView>, x: EdgeId) -> bool {
    forall|c: ChunkCoord|
        #![trigger cell_of(g2, c)]
        (cell_of(g1, c).edge_ids.contains(x) ==> cell_of(g2, c).edge_ids.contains(x)) && (cell_of(
            g1,
            c,
        ).cross_edges.contains(x) ==> cell_of(g2, c).cross_edges.contains(x))
}

proof fn lemma_keeps_filed(g1: Map<u64, ChunkView>, g2: Map<u64, ChunkView>, x: EdgeId, a: ChunkCoord, b: ChunkCoord)
    requires
        keeps_edge(g1, g2, x),
        edge_filed_at(g1, x, a, b),
    ensures
        edge_filed_at(g2, x, a, b),
{
    let _ = cell_of(g2, a);
    let _ = cell_of(g2, b);
}

proof fn lemma_keeps_trans(g1: Map<u64, ChunkView>, g2: Map<u64, ChunkView>, g3: Map<u64, ChunkView>, x: EdgeId)
    requires
        keeps_edge(g1, g2, x),
        keeps_edge(g2, g3, x),
    ensures
        keeps_edge(g1, g3, x),
{
    assert forall|c: ChunkCoord| #![trigger cell_of(g3, c)]
        (cell_of(g1, c).edge_ids.contains(x) ==> cell_of(g3, c).edge_ids.contains(x)) && (cell_of(g1, c).cross_edges.contains(x)
            ==> cell_of(g3, c).cross_edges.contains(x)) by {
        let _ = cell_of(g2, c);
    }
}

/// Filing nodes, filing edges and marking chunks dirty keep every listing;
/// withdrawing edge `e` keeps the listings of every other edge.
proof fn lemma_ops_keep_edge(g: Map<u64, ChunkView>, e: EdgeId, id: NodeId, c: ChunkCoord, x: EdgeId)
    ensures
        keeps_edge(g, grid_insert_edge(g, e, c), x),
        keeps_edge(g, grid_insert_cross_edge(g, e, c), x),
        keeps_edge(g, grid_insert_node(g, id, c), x),
        keeps_edge(g, grid_remove_node(g, id, c), x),
        keeps_edge(g, grid_mark_dirty(g, c), x),
        x != e ==> keeps_edge(g, grid_remove_edge(g, e, c), x),
        x != e ==> keeps_edge(g, grid_remove_cross_edge(g, e, c), x),
{
    assert forall|d: ChunkCoord| #![trigger cell_of(grid_insert_edge(g, e, c), d)]
        cell_of(g, d).edge_ids.contains(x) ==> cell_of(grid_insert_edge(g, e, c), d).edge_ids.contains(x) by {
        if cell_of(g, d).edge_ids.contains(x) && d.spec_key() == c.spec_key() {
            let l = cell_of(g, d).edge_ids;
            let i = choose|i: int| 0 <= i < l.len() && l[i] == x;
            assert(l.push(e)[i] == x);
        }
    }
    assert forall|d: ChunkCoord| #![trigger cell_of(grid_insert_cross_edge(g, e, c), d)]
        cell_of(g, d).cross_edges.contains(x) ==> cell_of(grid_insert_cross_edge(g, e, c), d).cross_edges.contains(x) by {
        if cell_of(g, d).cross_edges.contains(x) && d.spec_key() == c.spec_key() {
            let l = cell_of(g, d).cross_edges;
            let i = choose|i: int| 0 <= i < l.len() && l[i] == x;
            assert(l.push(e)[i] == x);
        }
    }
    if x != e {
        assert forall|d: ChunkCoord| #![trigger cell_of(grid_remove_edge(g, e, c), d)]
            cell_of(g, d).edge_ids.contains(x) ==> cell_of(grid_remove_edge(g, e, c), d).edge_ids.contains(x) by {
            lemma_without_contains(cell_of(g, d).edge_ids, e, x);
        }
        assert forall|d: ChunkCoord| #![trigger cell_of(grid_remove_cross_edge(g, e, c), d)]
            cell_of(g, d).cross_edges.contains(x) ==> cell_of(grid_remove_cross_edge(g, e, c), d).cross_edges.contains(x) by {
            lemma_without_contains(cell_of(g, d).cross_edges, e, x);
        }
    }
}

proof fn lemma_link_keeps_edge(g: Map<u64, ChunkView>, e: EdgeId, sc: ChunkCoord, tc: ChunkCoord, x: EdgeId)
    ensures
        keeps_edge(g, grid_link(g, e, sc, tc), x),
        x != e ==> keeps_edge(g, grid_unlink(g, e, sc, tc), x),
{
    let id = NodeId(0);
    lemma_ops_keep_edge(g, e, id, sc, x);
    lemma_ops_keep_edge(grid_insert_cross_edge(g, e, sc), e, id, tc, x);
    lemma_keeps_trans(g, grid_insert_cross_edge(g, e, sc), grid_insert_cross_edge(grid_insert_cross_edge(g, e, sc), e, tc), x);
    lemma_ops_keep_edge(grid_remove_cross_edge(g, e, sc), e, id, tc, x);
    if x != e {
        lemma_keeps_trans(g, grid_remove_cross_edge(g, e, sc), grid_remove_cross_edge(grid_remove_cross_edge(g, e, sc), e, tc), x);
    }
}

/// Connecting two nodes keeps every edge filed, the new one included.
pub proof fn lemma_add_edge_keeps_edges_filed(s: Scene, source: NodeId, target: NodeId, color: ColorBits)
    requires
        edges_filed(s),
        s.nodes.contains_key(source.0),
        s.nodes.contains_key(target.0),
    ensures
        edges_filed(scene_add_edge(s, source, target, color)),
{
    let t = scene_add_edge(s, source, target, color);
    let e = EdgeId(s.next_edge);
    let sc = s.nodes[source.0].chunk;
    let tc = s.nodes[target.0].chunk;
    assert forall|k: u64|
        #[trigger] t.edges.contains_key(k) && t.nodes.contains_key(t.edges[k].source.0) && t.nodes.contains_key(
            t.edges[k].target.0,
        ) implies edge_filed_at(t.grid, EdgeId(k), t.nodes[t.edges[k].source.0].chunk, t.nodes[t.edges[k].target.0].chunk) by {
        lemma_link_keeps_edge(s.grid, e, sc, tc, EdgeId(k));
        if k == e.0 {
            if sc == tc {
                let l = cell_of(s.grid, sc).edge_ids;
                assert(l.push(e)[l.len() as int] == e);
            } else {
                let g1 = grid_insert_cross_edge(s.grid, e, sc);
                let l1 = cell_of(s.grid, sc).cross_edges;
                assert(l1.push(e)[l1.len() as int] == e);
                let l2 = cell_of(g1, tc).cross_edges;
                assert(l2.push(e)[l2.len() as int] == e);
                lemma_ops_keep_edge(g1, e, NodeId(0), tc, e);
                let _ = cell_of(t.grid, sc);
            }
        } else {
            lemma_keeps_filed(s.grid, t.grid, EdgeId(k), s.nodes[s.edges[k].source.0].chunk, s.nodes[s.edges[k].target.0].chunk);
        }
    }
}

/// Removing an edge keeps every other edge filed.
pub proof fn lemma_remove_edge_keeps_edges_filed(s: Scene, e: EdgeId)
    requires
        edges_filed(s),
    ensures
        edges_filed(scene_remove_edge(s, e)),
{
    if s.edges.contains_key(e.0) {
        let t = scene_remove_edge(s, e);
        let d = s.edges[e.0];
        assert forall|k: u64|
            #[trigger] t.edges.contains_key(k) && t.nodes.contains_key(t.edges[k].source.0) && t.nodes.contains_key(
                t.edges[k].target.0,
            ) implies edge_filed_at(t.grid, EdgeId(k), t.nodes[t.edges[k].source.0].chunk, t.nodes[t.edges[k].target.0].chunk) by {
            if s.nodes.contains_key(d.source.0) && s.nodes.contains_key(d.target.0) {
                lemma_link_keeps_edge(s.grid, e, s.nodes[d.source.0].chunk, s.nodes[d.target.0].chunk, EdgeId(k));
                lemma_keeps_filed(s.grid, t.grid, EdgeId(k), s.nodes[s.edges[k].source.0].chunk, s.nodes[s.edges[k].target.0].chunk);
            }
        }
    }
}

proof fn lemma_remove_edges_keeps_edges_filed(s: Scene, list: Seq<EdgeId>)
    requires
        edges_filed(s),
    ensures
        edges_filed(scene_remove_edges(s, list)),
    decreases list.len(),
{
    if list.len() > 0 {
        lemma_remove_edges_keeps_edges_filed(s, list.drop_last());
        lemma_remove_edge_keeps_edges_filed(scene_remove_edges(s, list.drop_last()), list.last());
    }
}

proof fn lemma_delete_steps_keep_edges_filed(s: Scene, n: NodeId, nc: ChunkCoord, list: Seq<EdgeId>)
    requires
        edges_filed(s),
    ensures
        edges_filed(scene_delete_steps(s, n, nc, list)),
    decreases list.len(),
{
    if list.len() > 0 {
        lemma_delete_steps_keep_edges_filed(s, n, nc, list.drop_last());
        let t = scene_delete_steps(s, n, nc, list.drop_last());
        let e = list.last();
        if t.edges.contains_key(e.0) {
            let step = scene_delete_step(t, n, nc, e);
            let d = t.edges[e.0];
            let sc = if d.source == n { nc } else { chunk_or(t.nodes, d.source, nc) };
            let tc = if d.target == n { nc } else { chunk_or(t.nodes, d.target, nc) };
            assert forall|k: u64|
                #[trigger] step.edges.contains_key(k) && step.nodes.contains_key(step.edges[k].source.0)
                    && step.nodes.contains_key(step.edges[k].target.0) implies edge_filed_at(
                step.grid,
                EdgeId(k),
                step.nodes[step.edges[k].source.0].chunk,
                step.nodes[step.edges[k].target.0].chunk,
            ) by {
                lemma_link_keeps_edge(t.grid, e, sc, tc, EdgeId(k));
                lemma_keeps_filed(t.grid, step.grid, EdgeId(k), t.nodes[t.edges[k].source.0].chunk, t.nodes[t.edges[k].target.0].chunk);
            }
        }
    }
}

/// Deleting a node keeps every remaining edge filed.
pub proof fn lemma_delete_node_keeps_edges_filed(s: Scene, n: NodeId)
    requires
        edges_filed(s),
    ensures
        edges_filed(scene_delete_node(s, n)),
{
    if s.nodes.contains_key(n.0) {
        let nc = s.nodes[n.0].chunk;
        let s1 = Scene { nodes: s.nodes.remove(n.0), grid: grid_remove_node(s.grid, n, nc), ..s };
        assert forall|k: u64|
            #[trigger] s1.edges.contains_key(k) && s1.nodes.contains_key(s1.edges[k].source.0) && s1.nodes.contains_key(
                s1.edges[k].target.0,
            ) implies edge_filed_at(s1.grid, EdgeId(k), s1.nodes[s1.edges[k].source.0].chunk, s1.nodes[s1.edges[k].target.0].chunk) by {
            lemma_ops_keep_edge(s.grid, EdgeId(0), n, nc, EdgeId(k));
            lemma_keeps_filed(s.grid, s1.grid, EdgeId(k), s.nodes[s.edges[k].source.0].chunk, s.nodes[s.edges[k].target.0].chunk);
        }
        if s.adj.contains_key(n.0) {
            lemma_delete_steps_keep_edges_filed(Scene { adj: s1.adj.remove(n.0), ..s1 }, n, nc, s.adj[n.0]);
        }
    }
}

/// Rewiring and updating a node keeps every edge filed, provided the node
/// stays in its chunk or keeps none of its edges (a kept edge of a node that
/// moved to another chunk stays filed where it was).
pub proof fn lemma_update_node_keeps_edges_filed(s: Scene, n: NodeId, u: NodeFields, desired: Seq<NodeId>)
    requires
        s.wf(),
        edges_filed(s),
        s.nodes.contains_key(n.0) ==> (u.chunk == s.nodes[n.0].chunk || forall|m: NodeId|
            s.is_neighbor(n, m) ==> !desired.contains(m)),
    ensures
        edges_filed(scene_update_node(s, n, u, desired)),
{
    if s.nodes.contains_key(n.0) {
        let list = incident_in(s.adj, n.0);
        let drop = edges_to_drop(s.edges, list, n, desired);
        lemma_remove_edges_keeps_edges_filed(s, drop);
        crate::graph::systems::lemma_remove_edges_shrinks(s, drop, drop.len());
        assert(drop.take(drop.len() as int) =~= drop);
        let s1 = scene_remove_edges(s, drop);
        let old_nd = s1.nodes[n.0];
        let t = scene_update_node(s, n, u, desired);
        assert forall|k: u64|
            #[trigger] t.edges.contains_key(k) && t.nodes.contains_key(t.edges[k].source.0) && t.nodes.contains_key(
                t.edges[k].target.0,
            ) implies edge_filed_at(t.grid, EdgeId(k), t.nodes[t.edges[k].source.0].chunk, t.nodes[t.edges[k].target.0].chunk) by {
            let d = s1.edges[k];
            let sc = s1.nodes[d.source.0].chunk;
            let tc = s1.nodes[d.target.0].chunk;
            assert(edge_filed_at(s1.grid, EdgeId(k), sc, tc));
            if old_nd.chunk != u.chunk {
                let g0 = grid_remove_node(s1.grid, n, old_nd.chunk);
                lemma_ops_keep_edge(s1.grid, EdgeId(0), n, old_nd.chunk, EdgeId(k));
                lemma_ops_keep_edge(g0, EdgeId(0), n, u.chunk, EdgeId(k));
                lemma_keeps_trans(s1.grid, g0, t.grid, EdgeId(k));
                lemma_keeps_filed(s1.grid, t.grid, EdgeId(k), sc, tc);
                if touches(d, n.0) {
                    assert(s.edges.contains_key(k) && s.edges[k] == d);
                    assert(list.contains(EdgeId(k)));
                    let j = choose|j: int| 0 <= j < list.len() && list[j] == EdgeId(k);
                    assert(links_to(s.edges, s.adj, n, j, other_end(d, n)));
                    crate::graph::systems::lemma_edges_to_drop_covers(s.edges, list, n, desired, EdgeId(k));
                    let q = choose|q: int| 0 <= q < drop.len() && drop[q] == EdgeId(k);
                    assert(!s1.edges.contains_key(drop[q].0));
                }
            } else {
                assert(t.grid == s1.grid);
            }
        }
    }
}

proof fn lemma_filed_symmetric(g: Map<u64, ChunkView>, x: EdgeId, a: ChunkCoord, b: ChunkCoord)
    ensures
        edge_filed_at(g, x, a, b) == edge_filed_at(g, x, b, a),
{
}

/// The chunk of end `m`, taking node `n` to sit in `nc`.
pub open spec fn end_chunk(nodes: Map<u64, NodeData>, m: NodeId, n: NodeId, nc: ChunkCoord) -> ChunkCoord {
    if m == n {
        nc
    } else {
        nodes[m.0].chunk
    }
}

/// Re-filing edge `e` of node `n` (moved from `from` to `to`): every other
/// edge keeps its listings, and `e` ends up filed for `n` in `to`, whether it
/// was filed for `n` in `from` or already in `to`.
proof fn lemma_refile_step(
    g: Map<u64, ChunkView>,
    nodes: Map<u64, NodeData>,
    edges: Map<u64, EdgeData>,
    n: NodeId,
    from: ChunkCoord,
    to: ChunkCoord,
    e: EdgeId,
    x: EdgeId,
)
    requires
        from != to,
        nodes.contains_key(n.0),
        nodes[n.0].chunk == to,
    ensures
        x != e ==> keeps_edge(g, grid_refile_step(g, nodes, edges, n, from, to, e), x),
        ({
            let d = edges[e.0];
            let o = other_end(d, n);
            (x == e && edges.contains_key(e.0) && touches(d, n.0) && nodes.contains_key(o.0) && (edge_filed_at(
                g,
                e,
                from,
                end_chunk(nodes, o, n, from),
            ) || edge_filed_at(g, e, to, nodes[o.0].chunk))) ==> edge_filed_at(
                grid_refile_step(g, nodes, edges, n, from, to, e),
                e,
                to,
                nodes[o.0].chunk,
            )
        }),
{
    let g2 = grid_refile_step(g, nodes, edges, n, from, to, e);
    if edges.contains_key(e.0) && nodes.contains_key(other_end(edges[e.0], n).0) {
        let o = other_end(edges[e.0], n);
        let nbc = nodes[o.0].chunk;
        let was_same = from == nbc;
        let now_same = to == nbc;
        let id = NodeId(0);
        // The edge operations of the step, one after the other.
        let a1 = grid_remove_edge(g, e, from);
        let a2 = grid_insert_cross_edge(a1, e, to);
        let a3 = grid_insert_cross_edge(a2, e, nbc);
        let b1 = grid_remove_cross_edge(g, e, from);
        let b2 = grid_remove_cross_edge(b1, e, nbc);
        let b3 = grid_insert_edge(b2, e, to);
        let c2 = grid_insert_cross_edge(b1, e, to);
        let g1 = if was_same && !now_same {
            a3
        } else if !was_same && now_same {
            b3
        } else if !was_same && !now_same {
            c2
        } else {
            g
        };
        let m1 = grid_mark_dirty(g1, from);
        let m2 = grid_mark_dirty(m1, to);
        assert(g2 == grid_mark_dirty(m2, nbc));
        lemma_ops_keep_edge(g1, e, id, from, x);
        lemma_ops_keep_edge(m1, e, id, to, x);
        lemma_ops_keep_edge(m2, e, id, nbc, x);
        lemma_keeps_trans(g1, m1, m2, x);
        lemma_keeps_trans(g1, m2, g2, x);
        if x != e {
            lemma_ops_keep_edge(g, e, id, from, x);
            lemma_ops_keep_edge(a1, e, id, to, x);
            lemma_ops_keep_edge(a2, e, id, nbc, x);
            lemma_keeps_trans(g, a1, a2, x);
            lemma_keeps_trans(g, a2, a3, x);
            lemma_ops_keep_edge(b1, e, id, nbc, x);
            lemma_ops_keep_edge(b2, e, id, to, x);
            lemma_keeps_trans(g, b1, b2, x);
            lemma_keeps_trans(g, b2, b3, x);
            lemma_ops_keep_edge(b1, e, id, to, x);
            lemma_keeps_trans(g, b1, c2, x);
            lemma_keeps_trans(g, g1, g2, x);
        } else if touches(edges[e.0], n.0) && (edge_filed_at(g, e, from, end_chunk(nodes, o, n, from))
            || edge_filed_at(g, e, to, nbc)) {
            if was_same && !now_same {
                let l2 = cell_of(a1, to).cross_edges;
                assert(l2.push(e)[l2.len() as int] == e);
                let l3 = cell_of(a2, nbc).cross_edges;
                assert(l3.push(e)[l3.len() as int] == e);
                lemma_ops_keep_edge(a2, e, id, nbc, e);
                let _ = cell_of(a3, to);
                lemma_keeps_filed(a3, g2, e, to, nbc);
            } else if !was_same && now_same {
                let l3 = cell_of(b2, to).edge_ids;
                assert(l3.push(e)[l3.len() as int] == e);
                lemma_keeps_filed(b3, g2, e, to, nbc);
            } else if !was_same && !now_same {
                let l2 = cell_of(b1, to).cross_edges;
                assert(l2.push(e)[l2.len() as int] == e);
                // The listing in the neighbour's chunk is untouched: that chunk is neither `from` nor `to`.
                ChunkCoord::lemma_key_injective(from, nbc);
                ChunkCoord::lemma_key_injective(to, nbc);
                assert(cell_of(c2, nbc) == cell_of(g, nbc));
                lemma_keeps_filed(c2, g2, e, to, nbc);
            }
        }
    }
}

/// The invariant of re-filing the edges of node `n`, moved from `from` to
/// `to`: an edge of `n` not re-filed yet is filed for `n` in `from` or in
/// `to`; every other edge is filed by its ends' chunks.
pub open spec fn refile_inv(
    g: Map<u64, ChunkView>,
    t: Scene,
    n: NodeId,
    from: ChunkCoord,
    processed: Seq<EdgeId>,
) -> bool {
    forall|k: u64|
        #[trigger] t.edges.contains_key(k) && t.nodes.contains_key(t.edges[k].source.0) && t.nodes.contains_key(
            t.edges[k].target.0,
        ) ==> {
            let d = t.edges[k];
            let newf = edge_filed_at(g, EdgeId(k), t.nodes[d.source.0].chunk, t.nodes[d.target.0].chunk);
            let oldf = edge_filed_at(g, EdgeId(k), end_chunk(t.nodes, d.source, n, from), end_chunk(t.nodes, d.target, n, from));
            &&& (touches(d, n.0) && !processed.contains(EdgeId(k))) ==> (oldf || newf)
            &&& (!touches(d, n.0) || processed.contains(EdgeId(k))) ==> newf
        }
}

proof fn lemma_refile_steps_inv(g0: Map<u64, ChunkView>, t: Scene, n: NodeId, from: ChunkCoord, to: ChunkCoord, list: Seq<EdgeId>, i: int)
    requires
        from != to,
        t.nodes.contains_key(n.0),
        t.nodes[n.0].chunk == to,
        0 <= i <= list.len(),
        forall|j: int| 0 <= j < list.len() && t.edges.contains_key(#[trigger] list[j].0) ==> touches(t.edges[list[j].0], n.0),
        refile_inv(g0, t, n, from, Seq::empty()),
    ensures
        refile_inv(grid_refile_steps(g0, t.nodes, t.edges, n, from, to, list.take(i)), t, n, from, list.take(i)),
    decreases i,
{
    if i == 0 {
        assert(list.take(0) =~= Seq::<EdgeId>::empty());
    } else {
        lemma_refile_steps_inv(g0, t, n, from, to, list, i - 1);
        let pre = list.take(i - 1);
        let cur = list.take(i);
        assert(cur.drop_last() =~= pre);
        let e = list[i - 1];
        assert(cur.last() == e);
        let g = grid_refile_steps(g0, t.nodes, t.edges, n, from, to, pre);
        let g2 = grid_refile_steps(g0, t.nodes, t.edges, n, from, to, cur);
        assert(g2 == grid_refile_step(g, t.nodes, t.edges, n, from, to, e));
        assert forall|k: u64|
            #[trigger] t.edges.contains_key(k) && t.nodes.contains_key(t.edges[k].source.0) && t.nodes.contains_key(
                t.edges[k].target.0,
            ) implies ({
                let d = t.edges[k];
                let newf = edge_filed_at(g2, EdgeId(k), t.nodes[d.source.0].chunk, t.nodes[d.target.0].chunk);
                let oldf = edge_filed_at(g2, EdgeId(k), end_chunk(t.nodes, d.source, n, from), end_chunk(t.nodes, d.target, n, from));
                &&& (touches(d, n.0) && !cur.contains(EdgeId(k))) ==> (oldf || newf)
                &&& (!touches(d, n.0) || cur.contains(EdgeId(k))) ==> newf
            }) by {
            let d = t.edges[k];
            let x = EdgeId(k);
            lemma_refile_step(g, t.nodes, t.edges, n, from, to, e, x);
            if x != e {
                assert(cur.contains(x) == pre.contains(x)) by {
                    if cur.contains(x) {
                        let j = choose|j: int| 0 <= j < cur.len() && cur[j] == x;
                        assert(pre[j] == x);
                    }
                    if pre.contains(x) {
                        let j = choose|j: int| 0 <= j < pre.len() && pre[j] == x;
                        assert(cur[j] == x);
                    }
                }
                if edge_filed_at(g, x, t.nodes[d.source.0].chunk, t.nodes[d.target.0].chunk) {
                    lemma_keeps_filed(g, g2, x, t.nodes[d.source.0].chunk, t.nodes[d.target.0].chunk);
                }
                if edge_filed_at(g, x, end_chunk(t.nodes, d.source, n, from), end_chunk(t.nodes, d.target, n, from)) {
                    lemma_keeps_filed(g, g2, x, end_chunk(t.nodes, d.source, n, from), end_chunk(t.nodes, d.target, n, from));
                }
            } else {
                assert(cur[i - 1] == x);
                assert(touches(d, n.0));
                let o = other_end(d, n);
                if d.source == n {
                    assert(t.nodes[d.target.0].chunk == t.nodes[o.0].chunk);
                } else {
                    lemma_filed_symmetric(g, x, end_chunk(t.nodes, d.source, n, from), end_chunk(t.nodes, d.target, n, from));
                    lemma_filed_symmetric(g, x, t.nodes[d.source.0].chunk, t.nodes[d.target.0].chunk);
                    lemma_filed_symmetric(g2, x, t.nodes[d.source.0].chunk, t.nodes[d.target.0].chunk);
                }
            }
        }
    }
}

/// Moving a node to a position in another chunk (`set_position`) and then
/// bringing the grid in line from its old chunk (`sync_node_chunk`) leaves
/// every edge filed: each edge of the node ends up an inner edge of the chunk
/// it shares with its other end, or a crossing edge of both chunks.
pub proof fn lemma_move_and_sync_keeps_edges_filed(s: Scene, n: NodeId, position: Vec2Bits, to: ChunkCoord)
    requires
        s.wf(),
        edges_filed(s),
        s.nodes.contains_key(n.0),
    ensures
        ({
            let from = s.nodes[n.0].chunk;
            let t = Scene { nodes: s.nodes.insert(n.0, NodeData { position, chunk: to, ..s.nodes[n.0] }), ..s };
            let g = if to != from { grid_relocate(t, n, from, to) } else { t.grid };
            edges_filed(Scene { grid: g, ..t })
        }),
{
    let from = s.nodes[n.0].chunk;
    let t = Scene { nodes: s.nodes.insert(n.0, NodeData { position, chunk: to, ..s.nodes[n.0] }), ..s };
    if to != from {
        let g0 = grid_insert_node(grid_remove_node(t.grid, n, from), n, to);
        let list = incident_in(t.adj, n.0);
        assert forall|k: u64|
            #[trigger] t.edges.contains_key(k) && t.nodes.contains_key(t.edges[k].source.0) && t.nodes.contains_key(
                t.edges[k].target.0,
            ) implies ({
                let d = t.edges[k];
                let newf = edge_filed_at(g0, EdgeId(k), t.nodes[d.source.0].chunk, t.nodes[d.target.0].chunk);
                let oldf = edge_filed_at(g0, EdgeId(k), end_chunk(t.nodes, d.source, n, from), end_chunk(t.nodes, d.target, n, from));
                &&& (touches(d, n.0) && !Seq::<EdgeId>::empty().contains(EdgeId(k))) ==> (oldf || newf)
                &&& (!touches(d, n.0) || Seq::<EdgeId>::empty().contains(EdgeId(k))) ==> newf
            }) by {
            let d = t.edges[k];
            let x = EdgeId(k);
            let a = end_chunk(t.nodes, d.source, n, from);
            let b = end_chunk(t.nodes, d.target, n, from);
            assert(a == s.nodes[d.source.0].chunk);
            assert(b == s.nodes[d.target.0].chunk);
            lemma_ops_keep_edge(t.grid, x, n, from, x);
            lemma_ops_keep_edge(grid_remove_node(t.grid, n, from), x, n, to, x);
            lemma_keeps_trans(t.grid, grid_remove_node(t.grid, n, from), g0, x);
            lemma_keeps_filed(t.grid, g0, x, a, b);
        }
        assert forall|j: int| 0 <= j < list.len() && t.edges.contains_key(#[trigger] list[j].0) implies touches(
            t.edges[list[j].0],
            n.0,
        ) by {
            assert(incident_in(s.adj, n.0)[j] == list[j]);
        }
        lemma_refile_steps_inv(g0, t, n, from, to, list, list.len() as int);
        assert(list.take(list.len() as int) =~= list);
        let g = grid_relocate(t, n, from, to);
        assert forall|k: u64|
            #[trigger] t.edges.contains_key(k) && t.nodes.contains_key(t.edges[k].source.0) && t.nodes.contains_key(
                t.edges[k].target.0,
            ) implies edge_filed_at(g, EdgeId(k), t.nodes[t.edges[k].source.0].chunk, t.nodes[t.edges[k].target.0].chunk) by {
            let d = t.edges[k];
            if touches(d, n.0) {
                if d.source.0 == n.0 {
                    assert(incident_in(s.adj, d.source.0).contains(EdgeId(k)));
                } else {
                    assert(incident_in(s.adj, d.target.0).contains(EdgeId(k)));
                }
            }
        }
    } else {
        assert(t.nodes =~= s.nodes.insert(n.0, NodeData { position, chunk: to, ..s.nodes[n.0] }));
        assert forall|k: u64|
            #[trigger] t.edges.contains_key(k) && t.nodes.contains_key(t.edges[k].source.0) && t.nodes.contains_key(
                t.edges[k].target.0,
            ) implies edge_filed_at(t.grid, EdgeId(k), t.nodes[t.edges[k].source.0].chunk, t.nodes[t.edges[k].target.0].chunk) by {
            assert(t.nodes[t.edges[k].source.0].chunk == s.nodes[s.edges[k].source.0].chunk);
            assert(t.nodes[t.edges[k].target.0].chunk == s.nodes[s.edges[k].target.0].chunk);
        }
    }
}

// ------------------------------------------------ what a deletion leaves

/// Every edge listed in the grid is an edge of the graph with both ends,
/// listed only where it is filed: as an inner edge of the one chunk both its
/// ends share, or as a crossing edge of one of its ends' two chunks.
pub open spec fn grid_exact(s: Scene) -> bool {
    &&& forall|c: ChunkCoord, y: EdgeId|
        #[trigger] cell_of(s.grid, c).edge_ids.contains(y) ==> {
            &&& s.edges.contains_key(y.0)
            &&& s.nodes.contains_key(s.edges[y.0].source.0)
            &&& s.nodes.contains_key(s.edges[y.0].target.0)
            &&& s.nodes[s.edges[y.0].source.0].chunk == c
            &&& s.nodes[s.edges[y.0].target.0].chunk == c
        }
    &&& forall|c: ChunkCoord, y: EdgeId|
        #[trigger] cell_of(s.grid, c).cross_edges.contains(y) ==> {
            &&& s.edges.contains_key(y.0)
            &&& s.nodes.contains_key(s.edges[y.0].source.0)
            &&& s.nodes.contains_key(s.edges[y.0].target.0)
            &&& s.nodes[s.edges[y.0].source.0].chunk != s.nodes[s.edges[y.0].target.0].chunk
            &&& (s.nodes[s.edges[y.0].source.0].chunk == c || s.nodes[s.edges[y.0].target.0].chunk == c)
        }
}

/// `g2` lists nothing that `g1` does not.
pub open spec fn shrinks(g1: Map<u64, ChunkView>, g2: Map<u64, ChunkView>) -> bool {
    &&& forall|c: ChunkCoord, y: EdgeId| #[trigger] cell_of(g2, c).edge_ids.contains(y) ==> cell_of(g1, c).edge_ids.contains(y)
    &&& forall|c: ChunkCoord, y: EdgeId|
        #[trigger] cell_of(g2, c).cross_edges.contains(y) ==> cell_of(g1, c).cross_edges.contains(y)
}

proof fn lemma_shrinks_trans(g1: Map<u64, ChunkView>, g2: Map<u64, ChunkView>, g3: Map<u64, ChunkView>)
    requires
        shrinks(g1, g2),
        shrinks(g2, g3),
    ensures
        shrinks(g1, g3),
{
    assert forall|c: ChunkCoord, y: EdgeId| #[trigger] cell_of(g3, c).edge_ids.contains(y) implies cell_of(g1, c).edge_ids.contains(y) by {
        assert(cell_of(g2, c).edge_ids.contains(y));
    }
    assert forall|c: ChunkCoord, y: EdgeId| #[trigger] cell_of(g3, c).cross_edges.contains(y) implies cell_of(g1, c).cross_edges.contains(
        y,
    ) by {
        assert(cell_of(g2, c).cross_edges.contains(y));
    }
}

/// Withdrawals only shrink the lists; withdrawing edge `e` leaves it in no
/// list it was withdrawn from.
proof fn lemma_removals_shrink(g: Map<u64, ChunkView>, e: EdgeId, id: NodeId, c: ChunkCoord)
    ensures
        shrinks(g, grid_remove_node(g, id, c)),
        shrinks(g, grid_remove_edge(g, e, c)),
        shrinks(g, grid_remove_cross_edge(g, e, c)),
        !cell_of(grid_remove_edge(g, e, c), c).edge_ids.contains(e),
        !cell_of(grid_remove_cross_edge(g, e, c), c).cross_edges.contains(e),
{
    assert forall|d: ChunkCoord, y: EdgeId| #[trigger] cell_of(grid_remove_edge(g, e, c), d).edge_ids.contains(y) implies cell_of(
        g,
        d,
    ).edge_ids.contains(y) by {
        lemma_without_contains(cell_of(g, d).edge_ids, e, y);
    }
    assert forall|d: ChunkCoord, y: EdgeId| #[trigger] cell_of(grid_remove_cross_edge(g, e, c), d).cross_edges.contains(y) implies cell_of(
        g,
        d,
    ).cross_edges.contains(y) by {
        lemma_without_contains(cell_of(g, d).cross_edges, e, y);
    }
    lemma_without_contains(cell_of(g, c).edge_ids, e, e);
    lemma_without_contains(cell_of(g, c).cross_edges, e, e);
}

/// Withdrawing edge `e` filed between `sc` and `tc` shrinks the lists and
/// leaves `e` in none of the lists it was withdrawn from.
proof fn lemma_unlink_clears(g: Map<u64, ChunkView>, e: EdgeId, sc: ChunkCoord, tc: ChunkCoord)
    ensures
        shrinks(g, grid_unlink(g, e, sc, tc)),
        forall|c: ChunkCoord|
            #[trigger] cell_of(grid_unlink(g, e, sc, tc), c).edge_ids.contains(e) ==> !(sc == tc && c == sc),
        forall|c: ChunkCoord|
            #[trigger] cell_of(grid_unlink(g, e, sc, tc), c).cross_edges.contains(e) ==> !(sc != tc && (c == sc || c == tc)),
{
    let id = NodeId(0);
    lemma_removals_shrink(g, e, id, sc);
    let g1 = grid_remove_cross_edge(g, e, sc);
    lemma_removals_shrink(g1, e, id, tc);
    lemma_shrinks_trans(g, g1, grid_remove_cross_edge(g1, e, tc));
    let u = grid_unlink(g, e, sc, tc);
    assert forall|c: ChunkCoord| #[trigger] cell_of(u, c).edge_ids.contains(e) implies !(sc == tc && c == sc) by {}
    assert forall|c: ChunkCoord| #[trigger] cell_of(u, c).cross_edges.contains(e) implies !(sc != tc && (c == sc || c == tc)) by {
        if sc != tc {
            if c == sc {
                assert(cell_of(g1, sc).cross_edges.contains(e));
            }
        }
    }
}

/// The invariant of the deletion steps of node `n`: the nodes are those of
/// `s` without `n`; the edges are those of `s` not yet processed; the lists
/// only shrank; and a processed edge is listed nowhere.
pub open spec fn delete_inv(cur: Scene, s: Scene, n: NodeId, processed: Seq<EdgeId>) -> bool {
    &&& cur.nodes == s.nodes.remove(n.0)
    &&& forall|y: u64| #[trigger] cur.edges.contains_key(y) <==> (s.edges.contains_key(y) && !processed.contains(EdgeId(y)))
    &&& forall|y: u64| #[trigger] cur.edges.contains_key(y) ==> cur.edges[y] == s.edges[y]
    &&& shrinks(s.grid, cur.grid)
    &&& forall|c: ChunkCoord, y: EdgeId|
        processed.contains(y) ==> !(#[trigger] cell_of(cur.grid, c).edge_ids.contains(y)) && !cell_of(
            cur.grid,
            c,
        ).cross_edges.contains(y)
}

proof fn lemma_delete_steps_clear(s: Scene, s2: Scene, n: NodeId, list: Seq<EdgeId>, i: int)
    requires
        s.wf(),
        grid_exact(s),
        s.nodes.contains_key(n.0),
        list == incident_in(s.adj, n.0),
        0 <= i <= list.len(),
        delete_inv(s2, s, n, Seq::empty()),
    ensures
        delete_inv(scene_delete_steps(s2, n, s.nodes[n.0].chunk, list.take(i)), s, n, list.take(i)),
    decreases i,
{
    let nc = s.nodes[n.0].chunk;
    if i == 0 {
        assert(list.take(0) =~= Seq::<EdgeId>::empty());
    } else {
        lemma_delete_steps_clear(s, s2, n, list, i - 1);
        let pre = list.take(i - 1);
        let cur = list.take(i);
        assert(cur.drop_last() =~= pre);
        let e = list[i - 1];
        assert(cur.last() == e);
        assert(cur =~= pre.push(e));
        let t = scene_delete_steps(s2, n, nc, pre);
        let t2 = scene_delete_steps(s2, n, nc, cur);
        assert(t2 == scene_delete_step(t, n, nc, e));
        assert(s.edges.contains_key(e.0) && touches(s.edges[e.0], n.0)) by {
            assert(incident_in(s.adj, n.0)[i - 1] == e);
        }
        assert forall|y: EdgeId| #[trigger] cur.contains(y) <==> (pre.contains(y) || y == e) by {
            if cur.contains(y) {
                let j = choose|j: int| 0 <= j < cur.len() && cur[j] == y;
                if j < pre.len() {
                    assert(pre[j] == y);
                }
            }
            if pre.contains(y) {
                let j = choose|j: int| 0 <= j < pre.len() && pre[j] == y;
                assert(cur[j] == y);
            }
            if y == e {
                assert(cur[i - 1] == y);
            }
        }
        if t.edges.contains_key(e.0) {
            let d = t.edges[e.0];
            assert(d == s.edges[e.0]);
            let sc = if d.source == n { nc } else { chunk_or(t.nodes, d.source, nc) };
            let tc = if d.target == n { nc } else { chunk_or(t.nodes, d.target, nc) };
            assert(sc == s.nodes[d.source.0].chunk);
            assert(tc == s.nodes[d.target.0].chunk);
            lemma_unlink_clears(t.grid, e, sc, tc);
            lemma_shrinks_trans(s.grid, t.grid, t2.grid);
            assert(t2.edges =~= t.edges.remove(e.0));
            assert(t2.nodes == s.nodes.remove(n.0));
            assert forall|y: u64| #[trigger] t2.edges.contains_key(y) <==> (s.edges.contains_key(y) && !cur.contains(EdgeId(y))) by {
                assert(cur.contains(EdgeId(y)) <==> (pre.contains(EdgeId(y)) || EdgeId(y) == e));
            }
            assert forall|y: u64| #[trigger] t2.edges.contains_key(y) implies t2.edges[y] == s.edges[y] by {
                assert(t.edges.contains_key(y));
            }
            assert(shrinks(s.grid, t2.grid));
            assert forall|c: ChunkCoord, y: EdgeId|
                cur.contains(y) implies !(#[trigger] cell_of(t2.grid, c).edge_ids.contains(y)) && !cell_of(
                t2.grid,
                c,
            ).cross_edges.contains(y) by {
                if pre.contains(y) {
                    if cell_of(t2.grid, c).edge_ids.contains(y) {
                        assert(cell_of(t.grid, c).edge_ids.contains(y));
                    }
                    if cell_of(t2.grid, c).cross_edges.contains(y) {
                        assert(cell_of(t.grid, c).cross_edges.contains(y));
                    }
                } else {
                    assert(y == e);
                    if cell_of(t2.grid, c).edge_ids.contains(e) {
                        assert(cell_of(s.grid, c).edge_ids.contains(e));
                    }
                    if cell_of(t2.grid, c).cross_edges.contains(e) {
                        assert(cell_of(s.grid, c).cross_edges.contains(e));
                    }
                }
            }
        } else {
            assert(pre.contains(e));
            assert forall|y: u64| #[trigger] t2.edges.contains_key(y) <==> (s.edges.contains_key(y) && !cur.contains(EdgeId(y))) by {
                assert(cur.contains(EdgeId(y)) <==> (pre.contains(EdgeId(y)) || EdgeId(y) == e));
            }
            assert forall|c: ChunkCoord, y: EdgeId|
                cur.contains(y) implies !(#[trigger] cell_of(t2.grid, c).edge_ids.contains(y)) && !cell_of(
                t2.grid,
                c,
            ).cross_edges.contains(y) by {
                assert(pre.contains(y));
            }
            assert(delete_inv(t2, s, n, cur));
        }
        assert(delete_inv(t2, s, n, cur));
    }
}

/// Deleting node `n` removes exactly its edges, and leaves their ids in no
/// incidence list; where the grid listed every edge only where it is filed,
/// their ids are left in no grid cell either.
pub proof fn lemma_delete_node_clears_edges(s: Scene, n: NodeId)
    requires
        s.wf(),
    ensures
        ({
            let t = scene_delete_node(s, n);
            &&& forall|x: u64| #[trigger] s.edges.contains_key(x) ==> (t.edges.contains_key(x) <==> !touches(s.edges[x], n.0))
            &&& forall|x: u64, m: u64|
                s.edges.contains_key(x) && !t.edges.contains_key(x) ==> !(#[trigger] incident_in(t.adj, m).contains(EdgeId(x)))
            &&& grid_exact(s) ==> forall|x: u64, c: ChunkCoord|
                s.edges.contains_key(x) && !t.edges.contains_key(x) ==> !(#[trigger] cell_of(t.grid, c).edge_ids.contains(EdgeId(x)))
                    && !cell_of(t.grid, c).cross_edges.contains(EdgeId(x))
        }),
{
    crate::graph::systems::lemma_delete_node_wf(s, n);
    let t = scene_delete_node(s, n);
    if !s.nodes.contains_key(n.0) {
        assert forall|x: u64| #[trigger] s.edges.contains_key(x) implies (t.edges.contains_key(x) <==> !touches(s.edges[x], n.0)) by {}
        return;
    }
    let nc = s.nodes[n.0].chunk;
    let list = incident_in(s.adj, n.0);
    let s1 = Scene { nodes: s.nodes.remove(n.0), grid: grid_remove_node(s.grid, n, nc), ..s };
    let s2 = Scene { adj: s1.adj.remove(n.0), ..s1 };
    assert(s.adj.contains_key(n.0));
    assert(t == scene_delete_steps(s2, n, nc, list));
    lemma_removals_shrink(s.grid, EdgeId(0), n, nc);
    assert(delete_inv(s2, s, n, Seq::empty()));
    // Without the grid assumption the same steps run; the invariant's parts
    // on edges do not use it.
    assert(list.take(list.len() as int) =~= list);
    if grid_exact(s) {
        lemma_delete_steps_clear(s, s2, n, list, list.len() as int);
    } else {
        lemma_delete_steps_edges(s, s2, n, list, list.len() as int);
    }
    assert forall|x: u64| #[trigger] s.edges.contains_key(x) implies (t.edges.contains_key(x) <==> !touches(s.edges[x], n.0)) by {
        if touches(s.edges[x], n.0) {
            if s.edges[x].source.0 == n.0 {
                assert(incident_in(s.adj, s.edges[x].source.0).contains(EdgeId(x)));
            } else {
                assert(incident_in(s.adj, s.edges[x].target.0).contains(EdgeId(x)));
            }
        } else if list.contains(EdgeId(x)) {
            let j = choose|j: int| 0 <= j < list.len() && list[j] == EdgeId(x);
            assert(incident_in(s.adj, n.0)[j] == EdgeId(x));
        }
    }
    assert forall|x: u64, m: u64|
        s.edges.contains_key(x) && !t.edges.contains_key(x) implies !(#[trigger] incident_in(t.adj, m).contains(EdgeId(x))) by {
        if incident_in(t.adj, m).contains(EdgeId(x)) {
            let j = choose|j: int| 0 <= j < incident_in(t.adj, m).len() && incident_in(t.adj, m)[j] == EdgeId(x);
        }
    }
}

/// The parts of the deletion invariant on edges, without any grid assumption.
proof fn lemma_delete_steps_edges(s: Scene, s2: Scene, n: NodeId, list: Seq<EdgeId>, i: int)
    requires
        s.wf(),
        s.nodes.contains_key(n.0),
        list == incident_in(s.adj, n.0),
        0 <= i <= list.len(),
        s2.nodes == s.nodes.remove(n.0),
        s2.edges == s.edges,
    ensures
        ({
            let t = scene_delete_steps(s2, n, s.nodes[n.0].chunk, list.take(i));
            &&& t.nodes == s.nodes.remove(n.0)
            &&& forall|y: u64| #[trigger] t.edges.contains_key(y) <==> (s.edges.contains_key(y) && !list.take(i).contains(EdgeId(y)))
        }),
    decreases i,
{
    let nc = s.nodes[n.0].chunk;
    if i == 0 {
        assert(list.take(0) =~= Seq::<EdgeId>::empty());
    } else {
        lemma_delete_steps_edges(s, s2, n, list, i - 1);
        let pre = list.take(i - 1);
        let cur = list.take(i);
        assert(cur.drop_last() =~= pre);
        let e = list[i - 1];
        assert(cur.last() == e);
        let t = scene_delete_steps(s2, n, nc, pre);
        assert(s.edges.contains_key(e.0)) by {
            assert(incident_in(s.adj, n.0)[i - 1] == e);
        }
        assert forall|y: EdgeId| #[trigger] cur.contains(y) <==> (pre.contains(y) || y == e) by {
            if cur.contains(y) {
                let j = choose|j: int| 0 <= j < cur.len() && cur[j] == y;
                if j < pre.len() {
                    assert(pre[j] == y);
                }
            }
            if pre.contains(y) {
                let j = choose|j: int| 0 <= j < pre.len() && pre[j] == y;
                assert(cur[j] == y);
            }
            if y == e {
                assert(cur[i - 1] == y);
            }
        }
    }
}


// ------------------------------------------------ the grid lists edges only where they are filed

proof fn lemma_push_contains<T>(l: Seq<T>, x: T, y: T)
    ensures
        l.push(x).contains(y) <==> (l.contains(y) || y == x),
{
    if l.push(x).contains(y) {
        let i = choose|i: int| 0 <= i < l.push(x).len() && l.push(x)[i] == y;
        if i < l.len() {
            assert(l[i] == y);
        }
    }
    if l.contains(y) {
        let i = choose|i: int| 0 <= i < l.len() && l[i] == y;
        assert(l.push(x)[i] == y);
    }
    if y == x {
        assert(l.push(x)[l.len() as int] == y);
    }
}

/// Filing edge `e` in chunk `c0` adds `e` there and nothing else.
proof fn lemma_inserts_add_only(g: Map<u64, ChunkView>, e: EdgeId, c0: ChunkCoord)
    ensures
        forall|c: ChunkCoord, y: EdgeId|
            #[trigger] cell_of(grid_insert_edge(g, e, c0), c).edge_ids.contains(y) ==> cell_of(g, c).edge_ids.contains(y) || (y
                == e && c == c0),
        forall|c: ChunkCoord, y: EdgeId|
            #[trigger] cell_of(grid_insert_edge(g, e, c0), c).cross_edges.contains(y) ==> cell_of(g, c).cross_edges.contains(y),
        forall|c: ChunkCoord, y: EdgeId|
            #[trigger] cell_of(grid_insert_cross_edge(g, e, c0), c).edge_ids.contains(y) ==> cell_of(g, c).edge_ids.contains(y),
        forall|c: ChunkCoord, y: EdgeId|
            #[trigger] cell_of(grid_insert_cross_edge(g, e, c0), c).cross_edges.contains(y) ==> cell_of(g, c).cross_edges.contains(
                y,
            ) || (y == e && c == c0),
{
    assert forall|c: ChunkCoord, y: EdgeId|
        #[trigger] cell_of(grid_insert_edge(g, e, c0), c).edge_ids.contains(y) implies cell_of(g, c).edge_ids.contains(y) || (y
            == e && c == c0) by {
        if c.spec_key() == c0.spec_key() {
            ChunkCoord::lemma_key_injective(c, c0);
            lemma_push_contains(cell_of(g, c0).edge_ids, e, y);
        }
    }
    assert forall|c: ChunkCoord, y: EdgeId|
        #[trigger] cell_of(grid_insert_cross_edge(g, e, c0), c).cross_edges.contains(y) implies cell_of(
        g,
        c,
    ).cross_edges.contains(y) || (y == e && c == c0) by {
        if c.spec_key() == c0.spec_key() {
            ChunkCoord::lemma_key_injective(c, c0);
            lemma_push_contains(cell_of(g, c0).cross_edges, e, y);
        }
    }
}

/// An empty grid lists no edge.
pub proof fn lemma_empty_grid_exact(s: Scene)
    requires
        s.grid == Map::<u64, ChunkView>::empty(),
    ensures
        grid_exact(s),
{
}

/// Adding a node under an id not yet in use keeps every edge listed only
/// where it is filed.
pub proof fn lemma_add_node_keeps_grid_exact(s: Scene, id: NodeId, d: NodeData)
    requires
        grid_exact(s),
        !s.nodes.contains_key(id.0),
    ensures
        grid_exact(scene_add_node(s, id, d)),
{
    let t = scene_add_node(s, id, d);
    assert forall|c: ChunkCoord| #[trigger] cell_of(t.grid, c).edge_ids == cell_of(s.grid, c).edge_ids
        && cell_of(t.grid, c).cross_edges == cell_of(s.grid, c).cross_edges by {
        if c.spec_key() == d.chunk.spec_key() {
            assert(cell_of(s.grid, c) == cell_of(s.grid, d.chunk));
        }
    }
    assert forall|c: ChunkCoord, y: EdgeId| #[trigger] cell_of(t.grid, c).edge_ids.contains(y) implies {
        &&& t.edges.contains_key(y.0)
        &&& t.nodes.contains_key(t.edges[y.0].source.0)
        &&& t.nodes.contains_key(t.edges[y.0].target.0)
        &&& t.nodes[t.edges[y.0].source.0].chunk == c
        &&& t.nodes[t.edges[y.0].target.0].chunk == c
    } by {
        assert(cell_of(s.grid, c).edge_ids.contains(y));
    }
    assert forall|c: ChunkCoord, y: EdgeId| #[trigger] cell_of(t.grid, c).cross_edges.contains(y) implies {
        &&& t.edges.contains_key(y.0)
        &&& t.nodes.contains_key(t.edges[y.0].source.0)
        &&& t.nodes.contains_key(t.edges[y.0].target.0)
        &&& t.nodes[t.edges[y.0].source.0].chunk != t.nodes[t.edges[y.0].target.0].chunk
        &&& (t.nodes[t.edges[y.0].source.0].chunk == c || t.nodes[t.edges[y.0].target.0].chunk == c)
    } by {
        assert(cell_of(s.grid, c).cross_edges.contains(y));
    }
}

/// Connecting two nodes keeps every edge listed only where it is filed.
pub proof fn lemma_add_edge_keeps_grid_exact(s: Scene, source: NodeId, target: NodeId, color: ColorBits)
    requires
        s.wf(),
        grid_exact(s),
        s.nodes.contains_key(source.0),
        s.nodes.contains_key(target.0),
    ensures
        grid_exact(scene_add_edge(s, source, target, color)),
{
    let t = scene_add_edge(s, source, target, color);
    let e = EdgeId(s.next_edge);
    let sc = s.nodes[source.0].chunk;
    let tc = s.nodes[target.0].chunk;
    lemma_inserts_add_only(s.grid, e, sc);
    let g1 = grid_insert_cross_edge(s.grid, e, sc);
    lemma_inserts_add_only(g1, e, tc);
    assert(!s.edges.contains_key(e.0));
    assert forall|c: ChunkCoord, y: EdgeId| #[trigger] cell_of(t.grid, c).edge_ids.contains(y) implies {
        &&& t.edges.contains_key(y.0)
        &&& t.nodes.contains_key(t.edges[y.0].source.0)
        &&& t.nodes.contains_key(t.edges[y.0].target.0)
        &&& t.nodes[t.edges[y.0].source.0].chunk == c
        &&& t.nodes[t.edges[y.0].target.0].chunk == c
    } by {
        if sc != tc {
            assert(cell_of(g1, c).edge_ids.contains(y));
        }
        if cell_of(s.grid, c).edge_ids.contains(y) {
            assert(s.edges.contains_key(y.0));
            assert(y.0 != e.0);
        }
    }
    assert forall|c: ChunkCoord, y: EdgeId| #[trigger] cell_of(t.grid, c).cross_edges.contains(y) implies {
        &&& t.edges.contains_key(y.0)
        &&& t.nodes.contains_key(t.edges[y.0].source.0)
        &&& t.nodes.contains_key(t.edges[y.0].target.0)
        &&& t.nodes[t.edges[y.0].source.0].chunk != t.nodes[t.edges[y.0].target.0].chunk
        &&& (t.nodes[t.edges[y.0].source.0].chunk == c || t.nodes[t.edges[y.0].target.0].chunk == c)
    } by {
        if sc != tc {
            if !cell_of(g1, c).cross_edges.contains(y) {
                assert(y == e && c == tc);
            }
        }
        if cell_of(s.grid, c).cross_edges.contains(y) {
            assert(s.edges.contains_key(y.0));
            assert(y.0 != e.0);
        }
    }
}

/// Removing an edge keeps every edge listed only where it is filed.
pub proof fn lemma_remove_edge_keeps_grid_exact(s: Scene, e: EdgeId)
    requires
        s.wf(),
        grid_exact(s),
    ensures
        grid_exact(scene_remove_edge(s, e)),
{
    let t = scene_remove_edge(s, e);
    if s.edges.contains_key(e.0) {
        let d = s.edges[e.0];
        let sc = s.nodes[d.source.0].chunk;
        let tc = s.nodes[d.target.0].chunk;
        lemma_unlink_clears(s.grid, e, sc, tc);
        assert forall|c: ChunkCoord, y: EdgeId| #[trigger] cell_of(t.grid, c).edge_ids.contains(y) implies {
            &&& t.edges.contains_key(y.0)
            &&& t.nodes.contains_key(t.edges[y.0].source.0)
            &&& t.nodes.contains_key(t.edges[y.0].target.0)
            &&& t.nodes[t.edges[y.0].source.0].chunk == c
            &&& t.nodes[t.edges[y.0].target.0].chunk == c
        } by {
            assert(cell_of(s.grid, c).edge_ids.contains(y));
            if y.0 == e.0 {
                assert(y == e);
            }
        }
        assert forall|c: ChunkCoord, y: EdgeId| #[trigger] cell_of(t.grid, c).cross_edges.contains(y) implies {
            &&& t.edges.contains_key(y.0)
            &&& t.nodes.contains_key(t.edges[y.0].source.0)
            &&& t.nodes.contains_key(t.edges[y.0].target.0)
            &&& t.nodes[t.edges[y.0].source.0].chunk != t.nodes[t.edges[y.0].target.0].chunk
            &&& (t.nodes[t.edges[y.0].source.0].chunk == c || t.nodes[t.edges[y.0].target.0].chunk == c)
        } by {
            assert(cell_of(s.grid, c).cross_edges.contains(y));
            if y.0 == e.0 {
                assert(y == e);
            }
        }
    }
}


/// Deleting a node keeps every edge listed only where it is filed.
pub proof fn lemma_delete_node_keeps_grid_exact(s: Scene, n: NodeId)
    requires
        s.wf(),
        grid_exact(s),
    ensures
        grid_exact(scene_delete_node(s, n)),
{
    if s.nodes.contains_key(n.0) {
        let t = scene_delete_node(s, n);
        let nc = s.nodes[n.0].chunk;
        let list = incident_in(s.adj, n.0);
        let s1 = Scene { nodes: s.nodes.remove(n.0), grid: grid_remove_node(s.grid, n, nc), ..s };
        let s2 = Scene { adj: s1.adj.remove(n.0), ..s1 };
        assert(s.adj.contains_key(n.0));
        assert(t == scene_delete_steps(s2, n, nc, list));
        lemma_removals_shrink(s.grid, EdgeId(0), n, nc);
        assert(delete_inv(s2, s, n, Seq::empty()));
        assert(list.take(list.len() as int) =~= list);
        lemma_delete_steps_clear(s, s2, n, list, list.len() as int);
        assert forall|y: EdgeId| #[trigger] s.edges.contains_key(y.0) && !list.contains(y) implies !touches(
            s.edges[y.0],
            n.0,
        ) by {
            if s.edges[y.0].source.0 == n.0 {
                assert(incident_in(s.adj, s.edges[y.0].source.0).contains(EdgeId(y.0)));
            }
            if s.edges[y.0].target.0 == n.0 {
                assert(incident_in(s.adj, s.edges[y.0].target.0).contains(EdgeId(y.0)));
            }
        }
        assert forall|c: ChunkCoord, y: EdgeId| #[trigger] cell_of(t.grid, c).edge_ids.contains(y) implies {
            &&& t.edges.contains_key(y.0)
            &&& t.nodes.contains_key(t.edges[y.0].source.0)
            &&& t.nodes.contains_key(t.edges[y.0].target.0)
            &&& t.nodes[t.edges[y.0].source.0].chunk == c
            &&& t.nodes[t.edges[y.0].target.0].chunk == c
        } by {
            assert(cell_of(s.grid, c).edge_ids.contains(y));
            assert(!list.contains(y));
            assert(t.edges.contains_key(y.0));
        }
        assert forall|c: ChunkCoord, y: EdgeId| #[trigger] cell_of(t.grid, c).cross_edges.contains(y) implies {
            &&& t.edges.contains_key(y.0)
            &&& t.nodes.contains_key(t.edges[y.0].source.0)
            &&& t.nodes.contains_key(t.edges[y.0].target.0)
            &&& t.nodes[t.edges[y.0].source.0].chunk != t.nodes[t.edges[y.0].target.0].chunk
            &&& (t.nodes[t.edges[y.0].source.0].chunk == c || t.nodes[t.edges[y.0].target.0].chunk == c)
        } by {
            assert(cell_of(s.grid, c).cross_edges.contains(y));
            if list.contains(y) {
                assert(!cell_of(t.grid, c).edge_ids.contains(y));
            }
            assert(t.edges.contains_key(y.0));
        }
    }
}


proof fn lemma_remove_edges_keeps_grid_exact(s: Scene, list: Seq<EdgeId>)
    requires
        s.wf(),
        grid_exact(s),
    ensures
        grid_exact(scene_remove_edges(s, list)),
        scene_remove_edges(s, list).wf(),
    decreases list.len(),
{
    if list.len() > 0 {
        lemma_remove_edges_keeps_grid_exact(s, list.drop_last());
        let t = scene_remove_edges(s, list.drop_last());
        crate::graph::systems::lemma_remove_edge_wf(t, list.last());
        lemma_remove_edge_keeps_grid_exact(t, list.last());
    }
}

/// Moving a node between node lists leaves every edge list as it was.
proof fn lemma_node_moves_keep_edge_lists(g: Map<u64, ChunkView>, id: NodeId, from: ChunkCoord, to: ChunkCoord)
    ensures
        forall|c: ChunkCoord|
            #[trigger] cell_of(grid_insert_node(grid_remove_node(g, id, from), id, to), c).edge_ids == cell_of(g, c).edge_ids
                && cell_of(grid_insert_node(grid_remove_node(g, id, from), id, to), c).cross_edges == cell_of(g, c).cross_edges,
{
    let g0 = grid_remove_node(g, id, from);
    assert forall|c: ChunkCoord| #[trigger] cell_of(g0, c).edge_ids == cell_of(g, c).edge_ids && cell_of(g0, c).cross_edges
        == cell_of(g, c).cross_edges by {}
    assert forall|c: ChunkCoord|
        #[trigger] cell_of(grid_insert_node(g0, id, to), c).edge_ids == cell_of(g, c).edge_ids && cell_of(
            grid_insert_node(g0, id, to),
            c,
        ).cross_edges == cell_of(g, c).cross_edges by {
        if c.spec_key() == to.spec_key() {
            assert(cell_of(g0, c) == cell_of(g0, to));
        }
        assert(cell_of(g0, c).edge_ids == cell_of(g, c).edge_ids);
    }
}

/// Rewiring and updating a node keeps every edge listed only where it is
/// filed, provided the node stays in its chunk or keeps none of its edges.
pub proof fn lemma_update_node_keeps_grid_exact(s: Scene, n: NodeId, u: NodeFields, desired: Seq<NodeId>)
    requires
        s.wf(),
        grid_exact(s),
        s.nodes.contains_key(n.0) ==> (u.chunk == s.nodes[n.0].chunk || forall|m: NodeId|
            s.is_neighbor(n, m) ==> !desired.contains(m)),
    ensures
        grid_exact(scene_update_node(s, n, u, desired)),
{
    if s.nodes.contains_key(n.0) {
        let list = incident_in(s.adj, n.0);
        let drop = edges_to_drop(s.edges, list, n, desired);
        lemma_remove_edges_keeps_grid_exact(s, drop);
        crate::graph::systems::lemma_remove_edges_shrinks(s, drop, drop.len());
        assert(drop.take(drop.len() as int) =~= drop);
        let s1 = scene_remove_edges(s, drop);
        let old_nd = s1.nodes[n.0];
        let t = scene_update_node(s, n, u, desired);
        lemma_node_moves_keep_edge_lists(s1.grid, n, old_nd.chunk, u.chunk);
        assert forall|c: ChunkCoord| #[trigger] cell_of(t.grid, c).edge_ids == cell_of(s1.grid, c).edge_ids
            && cell_of(t.grid, c).cross_edges == cell_of(s1.grid, c).cross_edges by {}
        // Where the node moved, no edge of it is left.
        assert forall|k: u64| #[trigger] s1.edges.contains_key(k) && old_nd.chunk != u.chunk implies !touches(
            s1.edges[k],
            n.0,
        ) by {
            let d = s1.edges[k];
            if touches(d, n.0) {
                assert(s.edges.contains_key(k) && s.edges[k] == d);
                if d.source.0 == n.0 {
                    assert(incident_in(s.adj, d.source.0).contains(EdgeId(k)));
                } else {
                    assert(incident_in(s.adj, d.target.0).contains(EdgeId(k)));
                }
                assert(list.contains(EdgeId(k)));
                let j = choose|j: int| 0 <= j < list.len() && list[j] == EdgeId(k);
                assert(links_to(s.edges, s.adj, n, j, other_end(d, n)));
                crate::graph::systems::lemma_edges_to_drop_covers(s.edges, list, n, desired, EdgeId(k));
                let q = choose|q: int| 0 <= q < drop.len() && drop[q] == EdgeId(k);
                assert(!s1.edges.contains_key(drop[q].0));
            }
        }
        assert forall|c: ChunkCoord, y: EdgeId| #[trigger] cell_of(t.grid, c).edge_ids.contains(y) implies {
            &&& t.edges.contains_key(y.0)
            &&& t.nodes.contains_key(t.edges[y.0].source.0)
            &&& t.nodes.contains_key(t.edges[y.0].target.0)
            &&& t.nodes[t.edges[y.0].source.0].chunk == c
            &&& t.nodes[t.edges[y.0].target.0].chunk == c
        } by {
            assert(cell_of(s1.grid, c).edge_ids.contains(y));
            assert(s1.edges.contains_key(y.0));
        }
        assert forall|c: ChunkCoord, y: EdgeId| #[trigger] cell_of(t.grid, c).cross_edges.contains(y) implies {
            &&& t.edges.contains_key(y.0)
            &&& t.nodes.contains_key(t.edges[y.0].source.0)
            &&& t.nodes.contains_key(t.edges[y.0].target.0)
            &&& t.nodes[t.edges[y.0].source.0].chunk != t.nodes[t.edges[y.0].target.0].chunk
            &&& (t.nodes[t.edges[y.0].source.0].chunk == c || t.nodes[t.edges[y.0].target.0].chunk == c)
        } by {
            assert(cell_of(s1.grid, c).cross_edges.contains(y));
            assert(s1.edges.contains_key(y.0));
        }
    }
}


/// Withdrawing edge `e` from chunk `c0` withdraws it there and nothing else.
proof fn lemma_removals_take_only(g: Map<u64, ChunkView>, e: EdgeId, c0: ChunkCoord)
    ensures
        forall|c: ChunkCoord, y: EdgeId|
            #[trigger] cell_of(grid_remove_edge(g, e, c0), c).edge_ids.contains(y) ==> cell_of(g, c).edge_ids.contains(y) && !(y
                == e && c == c0),
        forall|c: ChunkCoord, y: EdgeId|
            #[trigger] cell_of(grid_remove_edge(g, e, c0), c).cross_edges.contains(y) ==> cell_of(g, c).cross_edges.contains(y),
        forall|c: ChunkCoord, y: EdgeId|
            #[trigger] cell_of(grid_remove_cross_edge(g, e, c0), c).edge_ids.contains(y) ==> cell_of(g, c).edge_ids.contains(y),
        forall|c: ChunkCoord, y: EdgeId|
            #[trigger] cell_of(grid_remove_cross_edge(g, e, c0), c).cross_edges.contains(y) ==> cell_of(g, c).cross_edges.contains(
                y,
            ) && !(y == e && c == c0),
{
    assert forall|c: ChunkCoord, y: EdgeId|
        #[trigger] cell_of(grid_remove_edge(g, e, c0), c).edge_ids.contains(y) implies cell_of(g, c).edge_ids.contains(y) && !(y
            == e && c == c0) by {
        lemma_without_contains(cell_of(g, c).edge_ids, e, y);
        if c.spec_key() == c0.spec_key() {
            ChunkCoord::lemma_key_injective(c, c0);
        }
    }
    assert forall|c: ChunkCoord, y: EdgeId|
        #[trigger] cell_of(grid_remove_cross_edge(g, e, c0), c).cross_edges.contains(y) implies cell_of(
        g,
        c,
    ).cross_edges.contains(y) && !(y == e && c == c0) by {
        lemma_without_contains(cell_of(g, c).cross_edges, e, y);
        if c.spec_key() == c0.spec_key() {
            ChunkCoord::lemma_key_injective(c, c0);
        }
    }
}

/// Marking chunks dirty leaves every edge list as it was.
proof fn lemma_marks_keep_edge_lists(g: Map<u64, ChunkView>, a: ChunkCoord, b: ChunkCoord, c0: ChunkCoord)
    ensures
        forall|c: ChunkCoord|
            #[trigger] cell_of(grid_mark_dirty(grid_mark_dirty(grid_mark_dirty(g, a), b), c0), c).edge_ids == cell_of(g, c).edge_ids
                && cell_of(grid_mark_dirty(grid_mark_dirty(grid_mark_dirty(g, a), b), c0), c).cross_edges == cell_of(
                g,
                c,
            ).cross_edges,
{
    let m1 = grid_mark_dirty(g, a);
    let m2 = grid_mark_dirty(m1, b);
    assert forall|c: ChunkCoord| #[trigger] cell_of(m1, c).edge_ids == cell_of(g, c).edge_ids && cell_of(m1, c).cross_edges
        == cell_of(g, c).cross_edges by {}
    assert forall|c: ChunkCoord| #[trigger] cell_of(m2, c).edge_ids == cell_of(m1, c).edge_ids && cell_of(m2, c).cross_edges
        == cell_of(m1, c).cross_edges by {}
    assert forall|c: ChunkCoord|
        #[trigger] cell_of(grid_mark_dirty(m2, c0), c).edge_ids == cell_of(m2, c).edge_ids && cell_of(
            grid_mark_dirty(m2, c0),
            c,
        ).cross_edges == cell_of(m2, c).cross_edges by {}
}

/// A listing as an inner edge of chunk `c` fits ends in chunks `a` and `b`.
pub open spec fn inner_fits(c: ChunkCoord, a: ChunkCoord, b: ChunkCoord) -> bool {
    a == b && c == a
}

/// A listing as a crossing edge of chunk `c` fits ends in chunks `a` and `b`.
pub open spec fn cross_fits(c: ChunkCoord, a: ChunkCoord, b: ChunkCoord) -> bool {
    a != b && (c == a || c == b)
}

/// Listing edge `y` as an inner edge of chunk `c` fits `t`: `y` is an edge of
/// `t` with both ends, whose ends' chunks the listing fits, or, where `y` is
/// not re-filed yet, the chunks its ends had while `n` sat in `from`.
pub open spec fn inner_listing_fits(t: Scene, n: NodeId, from: ChunkCoord, processed: Seq<EdgeId>, c: ChunkCoord, y: EdgeId) -> bool {
    let d = t.edges[y.0];
    &&& t.edges.contains_key(y.0)
    &&& t.nodes.contains_key(d.source.0)
    &&& t.nodes.contains_key(d.target.0)
    &&& (inner_fits(c, t.nodes[d.source.0].chunk, t.nodes[d.target.0].chunk) || (!processed.contains(y) && inner_fits(
        c,
        end_chunk(t.nodes, d.source, n, from),
        end_chunk(t.nodes, d.target, n, from),
    )))
}

/// The same for a listing as a crossing edge of chunk `c`.
pub open spec fn cross_listing_fits(t: Scene, n: NodeId, from: ChunkCoord, processed: Seq<EdgeId>, c: ChunkCoord, y: EdgeId) -> bool {
    let d = t.edges[y.0];
    &&& t.edges.contains_key(y.0)
    &&& t.nodes.contains_key(d.source.0)
    &&& t.nodes.contains_key(d.target.0)
    &&& (cross_fits(c, t.nodes[d.source.0].chunk, t.nodes[d.target.0].chunk) || (!processed.contains(y) && cross_fits(
        c,
        end_chunk(t.nodes, d.source, n, from),
        end_chunk(t.nodes, d.target, n, from),
    )))
}

/// The invariant of re-filing the edges of node `n`, moved from `from` to its
/// chunk in `t`: every listing in `g` fits.
pub open spec fn sync_inv(g: Map<u64, ChunkView>, t: Scene, n: NodeId, from: ChunkCoord, processed: Seq<EdgeId>) -> bool {
    &&& forall|c: ChunkCoord, y: EdgeId|
        #[trigger] cell_of(g, c).edge_ids.contains(y) ==> inner_listing_fits(t, n, from, processed, c, y)
    &&& forall|c: ChunkCoord, y: EdgeId|
        #[trigger] cell_of(g, c).cross_edges.contains(y) ==> cross_listing_fits(t, n, from, processed, c, y)
}


/// One re-filing step keeps every listing fitting, the re-filed edge now
/// fitting its ends' chunks; for an edge of `n` that is no self-loop.
proof fn lemma_sync_step(
    g: Map<u64, ChunkView>,
    t: Scene,
    n: NodeId,
    from: ChunkCoord,
    to: ChunkCoord,
    e: EdgeId,
    processed: Seq<EdgeId>,
)
    requires
        from != to,
        t.nodes.contains_key(n.0),
        t.nodes[n.0].chunk == to,
        t.edges.contains_key(e.0) ==> touches(t.edges[e.0], n.0) && !(t.edges[e.0].source == n && t.edges[e.0].target == n),
        sync_inv(g, t, n, from, processed),
    ensures
        sync_inv(grid_refile_step(g, t.nodes, t.edges, n, from, to, e), t, n, from, processed.push(e)),
{
    let g2 = grid_refile_step(g, t.nodes, t.edges, n, from, to, e);
    let p2 = processed.push(e);
    assert forall|y: EdgeId| #[trigger] p2.contains(y) <==> (processed.contains(y) || y == e) by {
        lemma_push_contains(processed, e, y);
    }
    if !t.edges.contains_key(e.0) || !t.nodes.contains_key(other_end(t.edges[e.0], n).0) {
        assert forall|c: ChunkCoord, y: EdgeId| #[trigger] cell_of(g2, c).edge_ids.contains(y) implies inner_listing_fits(
            t,
            n,
            from,
            p2,
            c,
            y,
        ) by {
            assert(inner_listing_fits(t, n, from, processed, c, y));
        }
        assert forall|c: ChunkCoord, y: EdgeId| #[trigger] cell_of(g2, c).cross_edges.contains(y) implies cross_listing_fits(
            t,
            n,
            from,
            p2,
            c,
            y,
        ) by {
            assert(cross_listing_fits(t, n, from, processed, c, y));
        }
    } else {
        let d = t.edges[e.0];
        let o = other_end(d, n);
        let nbc = t.nodes[o.0].chunk;
        assert(o != n);
        assert(end_chunk(t.nodes, o, n, from) == nbc);
        let was_same = from == nbc;
        let now_same = to == nbc;
        let a1 = grid_remove_edge(g, e, from);
        let a2 = grid_insert_cross_edge(a1, e, to);
        let a3 = grid_insert_cross_edge(a2, e, nbc);
        let b1 = grid_remove_cross_edge(g, e, from);
        let b2 = grid_remove_cross_edge(b1, e, nbc);
        let b3 = grid_insert_edge(b2, e, to);
        let c2 = grid_insert_cross_edge(b1, e, to);
        let g1 = if was_same && !now_same {
            a3
        } else if !was_same && now_same {
            b3
        } else if !was_same && !now_same {
            c2
        } else {
            g
        };
        assert(g2 == grid_mark_dirty(grid_mark_dirty(grid_mark_dirty(g1, from), to), nbc));
        lemma_marks_keep_edge_lists(g1, from, to, nbc);
        lemma_removals_take_only(g, e, from);
        lemma_inserts_add_only(a1, e, to);
        lemma_inserts_add_only(a2, e, nbc);
        lemma_removals_take_only(b1, e, nbc);
        lemma_inserts_add_only(b2, e, to);
        lemma_inserts_add_only(b1, e, to);
        assert forall|c: ChunkCoord, y: EdgeId| #[trigger] cell_of(g2, c).edge_ids.contains(y) implies inner_listing_fits(
            t,
            n,
            from,
            p2,
            c,
            y,
        ) by {
            assert(cell_of(g1, c).edge_ids == cell_of(g2, c).edge_ids);
            if was_same && !now_same {
                assert(cell_of(a2, c).edge_ids.contains(y));
                assert(cell_of(a1, c).edge_ids.contains(y));
                assert(inner_listing_fits(t, n, from, processed, c, y));
            } else if !was_same && now_same {
                if !(y == e && c == to) {
                    assert(cell_of(b2, c).edge_ids.contains(y));
                    assert(cell_of(b1, c).edge_ids.contains(y));
                    assert(inner_listing_fits(t, n, from, processed, c, y));
                }
            } else {
                assert(cell_of(b1, c).edge_ids.contains(y));
                assert(inner_listing_fits(t, n, from, processed, c, y));
            }
        }
        assert forall|c: ChunkCoord, y: EdgeId| #[trigger] cell_of(g2, c).cross_edges.contains(y) implies cross_listing_fits(
            t,
            n,
            from,
            p2,
            c,
            y,
        ) by {
            assert(cell_of(g1, c).cross_edges == cell_of(g2, c).cross_edges);
            if was_same && !now_same {
                if !(y == e && (c == to || c == nbc)) {
                    assert(cell_of(a2, c).cross_edges.contains(y));
                    assert(cell_of(a1, c).cross_edges.contains(y));
                    assert(cross_listing_fits(t, n, from, processed, c, y));
                }
            } else if !was_same && now_same {
                assert(cell_of(b2, c).cross_edges.contains(y));
                assert(cell_of(b1, c).cross_edges.contains(y));
                assert(cross_listing_fits(t, n, from, processed, c, y));
            } else {
                if !(y == e && c == to) {
                    assert(cell_of(b1, c).cross_edges.contains(y));
                    assert(cross_listing_fits(t, n, from, processed, c, y));
                }
            }
        }
    }
}


proof fn lemma_sync_steps(
    g0: Map<u64, ChunkView>,
    t: Scene,
    n: NodeId,
    from: ChunkCoord,
    to: ChunkCoord,
    list: Seq<EdgeId>,
    i: int,
)
    requires
        from != to,
        t.nodes.contains_key(n.0),
        t.nodes[n.0].chunk == to,
        0 <= i <= list.len(),
        forall|j: int|
            0 <= j < list.len() && t.edges.contains_key(#[trigger] list[j].0) ==> touches(t.edges[list[j].0], n.0) && !(
            t.edges[list[j].0].source == n && t.edges[list[j].0].target == n),
        sync_inv(g0, t, n, from, Seq::empty()),
    ensures
        sync_inv(grid_refile_steps(g0, t.nodes, t.edges, n, from, to, list.take(i)), t, n, from, list.take(i)),
    decreases i,
{
    if i == 0 {
        assert(list.take(0) =~= Seq::<EdgeId>::empty());
    } else {
        lemma_sync_steps(g0, t, n, from, to, list, i - 1);
        let pre = list.take(i - 1);
        let cur = list.take(i);
        assert(cur.drop_last() =~= pre);
        let e = list[i - 1];
        assert(cur.last() == e);
        assert(cur =~= pre.push(e));
        let g = grid_refile_steps(g0, t.nodes, t.edges, n, from, to, pre);
        assert(grid_refile_steps(g0, t.nodes, t.edges, n, from, to, cur) == grid_refile_step(g, t.nodes, t.edges, n, from, to, e));
        lemma_sync_step(g, t, n, from, to, e, pre);
    }
}

/// Moving a node that has no self-loop to a position (`set_position`) and
/// then bringing the grid in line from its old chunk (`sync_node_chunk`)
/// keeps every edge listed only where it is filed. (A self-loop of the node
/// stays listed as an inner edge of the old chunk too.)
pub proof fn lemma_move_and_sync_keeps_grid_exact(s: Scene, n: NodeId, position: Vec2Bits, to: ChunkCoord)
    requires
        s.wf(),
        grid_exact(s),
        s.nodes.contains_key(n.0),
        forall|k: u64| #[trigger] s.edges.contains_key(k) ==> !(s.edges[k].source == n && s.edges[k].target == n),
    ensures
        ({
            let from = s.nodes[n.0].chunk;
            let t = Scene { nodes: s.nodes.insert(n.0, NodeData { position, chunk: to, ..s.nodes[n.0] }), ..s };
            let g = if to != from { grid_relocate(t, n, from, to) } else { t.grid };
            grid_exact(Scene { grid: g, ..t })
        }),
{
    let from = s.nodes[n.0].chunk;
    let t = Scene { nodes: s.nodes.insert(n.0, NodeData { position, chunk: to, ..s.nodes[n.0] }), ..s };
    assert forall|m: u64| #[trigger] t.nodes.contains_key(m) implies s.nodes.contains_key(m) && (m != n.0 ==> t.nodes[m]
        == s.nodes[m]) by {}
    if to != from {
        let g0 = grid_insert_node(grid_remove_node(t.grid, n, from), n, to);
        let list = incident_in(t.adj, n.0);
        lemma_node_moves_keep_edge_lists(t.grid, n, from, to);
        assert forall|c: ChunkCoord, y: EdgeId| #[trigger] cell_of(g0, c).edge_ids.contains(y) implies inner_listing_fits(
            t,
            n,
            from,
            Seq::empty(),
            c,
            y,
        ) by {
            assert(cell_of(s.grid, c).edge_ids.contains(y));
            let d = s.edges[y.0];
            assert(end_chunk(t.nodes, d.source, n, from) == s.nodes[d.source.0].chunk);
            assert(end_chunk(t.nodes, d.target, n, from) == s.nodes[d.target.0].chunk);
        }
        assert forall|c: ChunkCoord, y: EdgeId| #[trigger] cell_of(g0, c).cross_edges.contains(y) implies cross_listing_fits(
            t,
            n,
            from,
            Seq::empty(),
            c,
            y,
        ) by {
            assert(cell_of(s.grid, c).cross_edges.contains(y));
            let d = s.edges[y.0];
            assert(end_chunk(t.nodes, d.source, n, from) == s.nodes[d.source.0].chunk);
            assert(end_chunk(t.nodes, d.target, n, from) == s.nodes[d.target.0].chunk);
        }
        assert forall|j: int|
            0 <= j < list.len() && t.edges.contains_key(#[trigger] list[j].0) implies touches(t.edges[list[j].0], n.0) && !(
            t.edges[list[j].0].source == n && t.edges[list[j].0].target == n) by {
            assert(incident_in(s.adj, n.0)[j] == list[j]);
        }
        lemma_sync_steps(g0, t, n, from, to, list, list.len() as int);
        assert(list.take(list.len() as int) =~= list);
        let g = grid_relocate(t, n, from, to);
        let u = Scene { grid: g, ..t };
        // An edge not re-filed does not touch `n`, so its ends' chunks did not change.
        assert forall|y: EdgeId| #[trigger] t.edges.contains_key(y.0) && !list.contains(y) implies !touches(t.edges[y.0], n.0) by {
            if t.edges[y.0].source.0 == n.0 {
                assert(incident_in(s.adj, t.edges[y.0].source.0).contains(EdgeId(y.0)));
            }
            if t.edges[y.0].target.0 == n.0 {
                assert(incident_in(s.adj, t.edges[y.0].target.0).contains(EdgeId(y.0)));
            }
        }
        assert forall|c: ChunkCoord, y: EdgeId| #[trigger] cell_of(u.grid, c).edge_ids.contains(y) implies {
            &&& u.edges.contains_key(y.0)
            &&& u.nodes.contains_key(u.edges[y.0].source.0)
            &&& u.nodes.contains_key(u.edges[y.0].target.0)
            &&& u.nodes[u.edges[y.0].source.0].chunk == c
            &&& u.nodes[u.edges[y.0].target.0].chunk == c
        } by {
            assert(inner_listing_fits(t, n, from, list, c, y));
        }
        assert forall|c: ChunkCoord, y: EdgeId| #[trigger] cell_of(u.grid, c).cross_edges.contains(y) implies {
            &&& u.edges.contains_key(y.0)
            &&& u.nodes.contains_key(u.edges[y.0].source.0)
            &&& u.nodes.contains_key(u.edges[y.0].target.0)
            &&& u.nodes[u.edges[y.0].source.0].chunk != u.nodes[u.edges[y.0].target.0].chunk
            &&& (u.nodes[u.edges[y.0].source.0].chunk == c || u.nodes[u.edges[y.0].target.0].chunk == c)
        } by {
            assert(cross_listing_fits(t, n, from, list, c, y));
        }
    } else {
        assert forall|m: u64| #[trigger] t.nodes.contains_key(m) implies t.nodes[m].chunk == s.nodes[m].chunk by {}
        assert forall|c: ChunkCoord, y: EdgeId| #[trigger] cell_of(t.grid, c).edge_ids.contains(y) implies {
            &&& t.edges.contains_key(y.0)
            &&& t.nodes.contains_key(t.edges[y.0].source.0)
            &&& t.nodes.contains_key(t.edges[y.0].target.0)
            &&& t.nodes[t.edges[y.0].source.0].chunk == c
            &&& t.nodes[t.edges[y.0].target.0].chunk == c
        } by {
            assert(cell_of(s.grid, c).edge_ids.contains(y));
        }
        assert forall|c: ChunkCoord, y: EdgeId| #[trigger] cell_of(t.grid, c).cross_edges.contains(y) implies {
            &&& t.edges.contains_key(y.0)
            &&& t.nodes.contains_key(t.edges[y.0].source.0)
            &&& t.nodes.contains_key(t.edges[y.0].target.0)
            &&& t.nodes[t.edges[y.0].source.0].chunk != t.nodes[t.edges[y.0].target.0].chunk
            &&& (t.nodes[t.edges[y.0].source.0].chunk == c || t.nodes[t.edges[y.0].target.0].chunk == c)
        } by {
            assert(cell_of(s.grid, c).cross_edges.contains(y));
        }
    }
}

} // verus!