//! What the placement of new nodes works from: the nodes the layout does not
//! track yet, whether the edge count changed, and the positions of a node's
//! neighbours. The placement arithmetic itself runs outside this crate.

use vstd::prelude::*;
use vstd::std_specs::iter::IteratorSpec;

use crate::graph::model::{incident_in, other_end, EdgeData, EdgeId, GraphData, NodeData, NodeId, Vec2Bits};
use crate::layout::engine::LayoutEngine;

verus! {

broadcast use vstd::std_specs::hash::group_hash_axioms;

/// Nodes of the graph that the engine does not track yet, each once (in the
/// node map's walking order, which the hash map leaves open).
pub fn untracked_nodes(graph: &GraphData, engine: &LayoutEngine) -> (ids: Vec<NodeId>)
    ensures
        ids@.no_duplicates(),
        forall|m: NodeId| #[trigger] ids@.contains(m) <==> (graph.nodes@.contains_key(m.0) && !engine.velocities@.contains_key(m.0)),
{
    let mut ids: Vec<NodeId> = Vec::new();
    let ghost all = graph.nodes.keys().remaining().unref();
    assert(all.take(all.len() as int) =~= all);
    for k in it: graph.nodes.keys()
        invariant
            it.seq().unref() == all,
            all.to_set() == graph.nodes@.dom(),
            all.no_duplicates(),
            ids@.no_duplicates(),
            forall|m: NodeId| #[trigger] ids@.contains(m) <==> (all.take(it.index() as int).contains(m.0) && !engine.velocities@.contains_key(m.0)),
    {
        let ghost i0 = it.index();
        let id = NodeId(*k);
        assert(all.take(i0 + 1) =~= all.take(i0 as int).push(*k));
        let ghost prev = ids@;
        let known = engine.knows_node(id);
        if !known {
            proof {
                if ids@.contains(id) {
                    let j = choose|j: int| 0 <= j < i0 && all[j] == *k;
                    assert(all[i0 as int] == *k);
                }
            }
            ids.push(id);
        }
        proof {
            assert forall|m: NodeId| #[trigger] ids@.contains(m) <==> (prev.contains(m) || (!known && m == id)) by {
                if !known {
                    if ids@.contains(m) {
                        let j = choose|j: int| 0 <= j < ids@.len() && ids@[j] == m;
                        if j < prev.len() {
                            assert(prev[j] == m);
                        }
                    }
                    if prev.contains(m) {
                        let j = choose|j: int| 0 <= j < prev.len() && prev[j] == m;
                        assert(ids@[j] == m);
                    }
                    if m == id {
                        assert(ids@[prev.len() as int] == m);
                    }
                }
            }
            let t0 = all.take(i0 as int);
            let t1 = all.take(i0 + 1);
            assert forall|m: NodeId| #[trigger] ids@.contains(m) <==> (t1.contains(m.0) && !engine.velocities@.contains_key(m.0)) by {
                if t1.contains(m.0) && m.0 != *k {
                    let j = choose|j: int| 0 <= j < t1.len() && t1[j] == m.0;
                    assert(t0[j] == m.0);
                }
                if t0.contains(m.0) {
                    let j = choose|j: int| 0 <= j < t0.len() && t0[j] == m.0;
                    assert(t1[j] == m.0);
                }
                if m.0 == *k {
                    assert(t1[i0 as int] == m.0);
                }
            }
        }
    }
    proof {
        assert forall|m: NodeId| #[trigger] ids@.contains(m) <==> (graph.nodes@.contains_key(m.0) && !engine.velocities@.contains_key(m.0)) by {
            if graph.nodes@.contains_key(m.0) {
                assert(all.to_set().contains(m.0));
            }
        }
    }
    ids
}

/// Records the current edge count; true when it differs from the last one seen.
pub fn note_edge_count(engine: &mut LayoutEngine, count: usize) -> (changed: bool)
    ensures
        changed == (count != old(engine).last_edge_count),
        final(engine).last_edge_count == count,
        final(engine).velocities == old(engine).velocities,
        final(engine).prev_forces == old(engine).prev_forces,
        final(engine).forces == old(engine).forces,
        final(engine).is_converged == old(engine).is_converged,
{
    if count != engine.last_edge_count {
        engine.last_edge_count = count;
        true
    } else {
        false
    }
}

/// Positions of the ends (other than `n`) of the edges of `list`, in order;
/// missing edges and missing ends skipped.
pub open spec fn neighbor_positions(
    nodes: Map<u64, NodeData>,
    edges: Map<u64, EdgeData>,
    n: NodeId,
    list: Seq<EdgeId>,
) -> Seq<Vec2Bits>
    decreases list.len(),
{
    if list.len() == 0 {
        Seq::empty()
    } else {
        let rest = neighbor_positions(nodes, edges, n, list.drop_last());
        let e = list.last();
        if edges.contains_key(e.0) && nodes.contains_key(other_end(edges[e.0], n).0) {
            rest.push(nodes[other_end(edges[e.0], n).0].position)
        } else {
            rest
        }
    }
}

/// Positions of the neighbours of `id` through its incident edges.
pub fn collect_neighbor_positions(id: NodeId, graph: &GraphData) -> (out: Vec<Vec2Bits>)
    ensures
        out@ == neighbor_positions(graph.nodes@, graph.edges@, id, graph.incident(id.0)),
{
    let mut out: Vec<Vec2Bits> = Vec::new();
    let ghost list = graph.incident(id.0);
    match graph.adjacency.get(&id.0) {
        Some(edge_ids) => {
            let mut i: usize = 0;
            assert(list.take(0) =~= Seq::<EdgeId>::empty());
            while i < edge_ids.len()
                invariant
                    edge_ids@ == list,
                    i <= edge_ids.len(),
                    out@ == neighbor_positions(graph.nodes@, graph.edges@, id, list.take(i as int)),
                decreases edge_ids.len() - i,
            {
                assert(list.take(i + 1).drop_last() =~= list.take(i as int));
                match graph.edges.get(&edge_ids[i].0) {
                    Some(edge) => {
                        let nb = if edge.source == id {
                            edge.target
                        } else {
                            edge.source
                        };
                        match graph.nodes.get(&nb.0) {
                            Some(d) => out.push(d.position),
                            None => {},
                        }
                    },
                    None => {},
                }
                i = i + 1;
            }
            assert(list.take(edge_ids.len() as int) =~= list);
        },
        None => {},
    }
    out
}

} // verus!
