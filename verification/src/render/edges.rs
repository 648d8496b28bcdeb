//! The line segments a chunk's edge mesh is built from.

use vstd::prelude::*;

use crate::graph::model::{ColorBits, EdgeData, EdgeId, GraphData, NodeData, Vec2Bits};
use crate::spatial::grid::ChunkData;

verus! {

broadcast use vstd::std_specs::hash::group_hash_axioms;

/// One edge drawn from its source's position to its target's, in its colour.
#[derive(Clone, Copy, Debug, PartialEq, Eq, Structural)]
pub struct EdgeSegment {
    pub from: Vec2Bits,
    pub to: Vec2Bits,
    pub color: ColorBits,
}

/// Segments of the edges of `list`, in order; an edge that is missing, or one
/// of whose ends is missing, is skipped.
pub open spec fn segments_of(nodes: Map<u64, NodeData>, edges: Map<u64, EdgeData>, list: Seq<EdgeId>) -> Seq<EdgeSegment>
    decreases list.len(),
{
    if list.len() == 0 {
        Seq::empty()
    } else {
        let rest = segments_of(nodes, edges, list.drop_last());
        let e = list.last();
        if edges.contains_key(e.0) && nodes.contains_key(edges[e.0].source.0) && nodes.contains_key(edges[e.0].target.0) {
            let d = edges[e.0];
            rest.push(EdgeSegment { from: nodes[d.source.0].position, to: nodes[d.target.0].position, color: d.color })
        } else {
            rest
        }
    }
}

fn push_segments(out: &mut Vec<EdgeSegment>, list: &Vec<EdgeId>, graph: &GraphData)
    ensures
        final(out)@ == old(out)@ + segments_of(graph.nodes@, graph.edges@, list@),
{
    let ghost start = out@;
    let mut i: usize = 0;
    assert(list@.take(0) =~= Seq::<EdgeId>::empty());
    assert(start + Seq::<EdgeSegment>::empty() =~= start);
    while i < list.len()
        invariant
            i <= list.len(),
            out@ == start + segments_of(graph.nodes@, graph.edges@, list@.take(i as int)),
        decreases list.len() - i,
    {
        assert(list@.take(i + 1).drop_last() =~= list@.take(i as int));
        let ghost before = out@;
        match graph.edges.get(&list[i].0) {
            Some(edge) => {
                match (graph.nodes.get(&edge.source.0), graph.nodes.get(&edge.target.0)) {
                    (Some(src), Some(tgt)) => {
                        out.push(EdgeSegment { from: src.position, to: tgt.position, color: edge.color });
                        assert(out@ =~= start + segments_of(graph.nodes@, graph.edges@, list@.take(i + 1)));
                    },
                    _ => {},
                }
            },
            None => {},
        }
        i = i + 1;
    }
    assert(list@.take(list.len() as int) =~= list@);
}

/// Segments of all edges filed in a chunk: its inner edges, then the edges
/// that cross into it. Positions are in world space.
pub fn chunk_edge_segments(chunk: &ChunkData, graph: &GraphData) -> (out: Vec<EdgeSegment>)
    ensures
        out@ == segments_of(graph.nodes@, graph.edges@, chunk.edge_ids@) + segments_of(
            graph.nodes@,
            graph.edges@,
            chunk.cross_edges@,
        ),
{
    let mut out: Vec<EdgeSegment> = Vec::new();
    push_segments(&mut out, &chunk.edge_ids, graph);
    push_segments(&mut out, &chunk.cross_edges, graph);
    assert(out@ =~= segments_of(graph.nodes@, graph.edges@, chunk.edge_ids@) + segments_of(
        graph.nodes@,
        graph.edges@,
        chunk.cross_edges@,
    ));
    out
}

} // verus!
