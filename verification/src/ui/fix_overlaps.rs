//! The "fix overlaps" button: once the new, non-overlapping positions are
//! known, one update per node that keeps its fields and its neighbours and
//! only moves it.

use vstd::prelude::*;

use crate::graph::model::{ascending_ids, GraphData, NodeData, NodeId, Vec2Bits};
use crate::graph::systems::NodeFields;
use crate::spatial::grid::ChunkCoord;

verus! {

broadcast use vstd::std_specs::hash::group_hash_axioms;

/// The entries of `resolved` (node, new position, its chunk) whose node exists, in order.
pub open spec fn fix_targets(
    nodes: Map<u64, NodeData>,
    resolved: Seq<(NodeId, Vec2Bits, ChunkCoord)>,
) -> Seq<(NodeId, Vec2Bits, ChunkCoord)>
    decreases resolved.len(),
{
    if resolved.len() == 0 {
        Seq::empty()
    } else {
        let rest = fix_targets(nodes, resolved.drop_last());
        if nodes.contains_key(resolved.last().0.0) {
            rest.push(resolved.last())
        } else {
            rest
        }
    }
}

/// An update that moves one node.
pub struct OverlapFix {
    pub node_id: NodeId,
    pub fields: NodeFields,
    pub desired: Vec<NodeId>,
}

/// The update for target `t`: the node's own name, data and colour at the
/// new position and chunk.
pub open spec fn moved_fields(d: NodeData, t: (NodeId, Vec2Bits, ChunkCoord)) -> NodeFields {
    NodeFields { position: t.1, chunk: t.2, name: d.name, data: d.data, color: d.color }
}

/// A fix only moves its node: each target is an entry of `resolved` whose node
/// exists, and its update keeps that node's name, data and colour and takes
/// the entry's position and chunk; every entry whose node exists is a target.
pub proof fn lemma_fix_moves_only(nodes: Map<u64, NodeData>, resolved: Seq<(NodeId, Vec2Bits, ChunkCoord)>)
    ensures
        forall|i: int|
            0 <= i < fix_targets(nodes, resolved).len() ==> {
                let t = #[trigger] fix_targets(nodes, resolved)[i];
                let d = nodes[t.0.0];
                let f = moved_fields(d, t);
                &&& nodes.contains_key(t.0.0)
                &&& resolved.contains(t)
                &&& f.name == d.name
                &&& f.data == d.data
                &&& f.color == d.color
                &&& f.position == t.1
                &&& f.chunk == t.2
            },
        forall|j: int|
            0 <= j < resolved.len() && nodes.contains_key(#[trigger] resolved[j].0.0) ==> fix_targets(nodes, resolved).contains(
                resolved[j],
            ),
    decreases resolved.len(),
{
    if resolved.len() > 0 {
        let pre = resolved.drop_last();
        lemma_fix_moves_only(nodes, pre);
        let rest = fix_targets(nodes, pre);
        let all = fix_targets(nodes, resolved);
        assert forall|x: (NodeId, Vec2Bits, ChunkCoord)| pre.contains(x) implies resolved.contains(x) by {
            let j = choose|j: int| 0 <= j < pre.len() && pre[j] == x;
            assert(resolved[j] == x);
        }
        assert(resolved.contains(resolved.last())) by {
            assert(resolved[resolved.len() - 1] == resolved.last());
        }
        assert forall|i: int| 0 <= i < rest.len() implies all[i] == rest[i] by {}
        assert forall|j: int|
            0 <= j < resolved.len() && nodes.contains_key(#[trigger] resolved[j].0.0) implies all.contains(resolved[j]) by {
            if j < pre.len() {
                assert(pre[j] == resolved[j]);
                assert(rest.contains(pre[j]));
                let i = choose|i: int| 0 <= i < rest.len() && rest[i] == pre[j];
                assert(all[i] == rest[i]);
            } else {
                assert(all[all.len() - 1] == resolved[j]);
            }
        }
    }
}

/// One update per existing node of `resolved`, in order: same fields at the
/// new position, and its current neighbours (ascending) as the desired ones.
pub fn overlap_fix_updates(graph: &GraphData, resolved: &Vec<(NodeId, Vec2Bits, ChunkCoord)>) -> (out: Vec<OverlapFix>)
    ensures
        out@.len() == fix_targets(graph.nodes@, resolved@).len(),
        forall|i: int|
            0 <= i < out@.len() ==> {
                let t = #[trigger] fix_targets(graph.nodes@, resolved@)[i];
                &&& out@[i].node_id == t.0
                &&& out@[i].fields == moved_fields(graph.nodes@[t.0.0], t)
                &&& ascending_ids(out@[i].desired@)
                &&& forall|m: NodeId| out@[i].desired@.contains(m) <==> graph.is_neighbor(t.0, m)
            },
        forall|i: int|
            #![trigger out@[i]]
            0 <= i < out@.len() ==> {
                &&& graph.nodes@.contains_key(out@[i].node_id.0)
                &&& out@[i].fields.name == graph.nodes@[out@[i].node_id.0].name
                &&& out@[i].fields.data == graph.nodes@[out@[i].node_id.0].data
                &&& out@[i].fields.color == graph.nodes@[out@[i].node_id.0].color
            },
{
    let mut out: Vec<OverlapFix> = Vec::new();
    let mut k: usize = 0;
    assert(resolved@.take(0) =~= Seq::<(NodeId, Vec2Bits, ChunkCoord)>::empty());
    while k < resolved.len()
        invariant
            k <= resolved.len(),
            out@.len() == fix_targets(graph.nodes@, resolved@.take(k as int)).len(),
            forall|i: int|
                0 <= i < out@.len() ==> {
                    let t = #[trigger] fix_targets(graph.nodes@, resolved@.take(k as int))[i];
                    &&& out@[i].node_id == t.0
                    &&& out@[i].fields == moved_fields(graph.nodes@[t.0.0], t)
                    &&& ascending_ids(out@[i].desired@)
                    &&& forall|m: NodeId| out@[i].desired@.contains(m) <==> graph.is_neighbor(t.0, m)
                },
        decreases resolved.len() - k,
    {
        let ghost pre = resolved@.take(k as int);
        let ghost next = resolved@.take(k + 1);
        assert(next.drop_last() =~= pre);
        assert(next.last() == resolved@[k as int]);
        let (id, position, chunk) = resolved[k];
        let ghost prev = out@;
        match graph.nodes.get(&id.0) {
            Some(d) => {
                let desired = graph.neighbor_node_ids(id);
                let fields = NodeFields {
                    position,
                    chunk,
                    name: d.name.clone(),
                    data: d.data.clone(),
                    color: d.color,
                };
                out.push(OverlapFix { node_id: id, fields, desired });
                assert(fix_targets(graph.nodes@, next) == fix_targets(graph.nodes@, pre).push(resolved@[k as int]));
                assert forall|i: int|
                    0 <= i < out@.len() implies {
                        let t = #[trigger] fix_targets(graph.nodes@, next)[i];
                        &&& out@[i].node_id == t.0
                        &&& out@[i].fields == moved_fields(graph.nodes@[t.0.0], t)
                        &&& ascending_ids(out@[i].desired@)
                        &&& forall|m: NodeId| out@[i].desired@.contains(m) <==> graph.is_neighbor(t.0, m)
                    } by {
                    if i < prev.len() {
                        assert(out@[i] == prev[i]);
                        assert(fix_targets(graph.nodes@, next)[i] == fix_targets(graph.nodes@, pre)[i]);
                    }
                }
            },
            None => {
                assert(fix_targets(graph.nodes@, next) == fix_targets(graph.nodes@, pre));
            },
        }
        k = k + 1;
    }
    assert(resolved@.take(resolved.len() as int) =~= resolved@);
    proof {
        lemma_fix_moves_only(graph.nodes@, resolved@);
    }
    assert forall|i: int|
        #![trigger out@[i]]
        0 <= i < out@.len() implies {
        &&& graph.nodes@.contains_key(out@[i].node_id.0)
        &&& out@[i].fields.name == graph.nodes@[out@[i].node_id.0].name
        &&& out@[i].fields.data == graph.nodes@[out@[i].node_id.0].data
        &&& out@[i].fields.color == graph.nodes@[out@[i].node_id.0].color
    } by {
        let t = fix_targets(graph.nodes@, resolved@)[i];
        assert(out@[i].node_id == t.0);
        assert(out@[i].fields == moved_fields(graph.nodes@[t.0.0], t));
    }
    out
}

} // verus!
