//! The graph as the API shows it: for each registered node, its UUID, its node
//! id and the UUIDs of its neighbours.

use vstd::prelude::*;

use crate::api::state::NodeUuidRegistry;
use vstd::std_specs::iter::IteratorSpec;
use crate::graph::model::{incident_in, links_to, other_end, ColorBits, EdgeData, EdgeId, GraphData, NodeId, TextSize, Vec2Bits};

verus! {

broadcast use vstd::std_specs::hash::group_hash_axioms;

/// UUIDs of the other ends of the edges of `list` (seen from `n`), in list
/// order: missing edges and ends without a UUID skipped, each UUID once.
pub open spec fn neighbor_uuid_list(
    edges: Map<u64, EdgeData>,
    n2u: Map<u64, u128>,
    n: NodeId,
    list: Seq<EdgeId>,
) -> Seq<u128>
    decreases list.len(),
{
    if list.len() == 0 {
        Seq::empty()
    } else {
        let rest = neighbor_uuid_list(edges, n2u, n, list.drop_last());
        let e = list.last();
        if edges.contains_key(e.0) && n2u.contains_key(other_end(edges[e.0], n).0) && !rest.contains(
            n2u[other_end(edges[e.0], n).0],
        ) {
            rest.push(n2u[other_end(edges[e.0], n).0])
        } else {
            rest
        }
    }
}

fn contains_uuid(v: &Vec<u128>, x: u128) -> (r: bool)
    ensures
        r == v@.contains(x),
{
    let mut i: usize = 0;
    while i < v.len()
        invariant
            i <= v.len(),
            forall|j: int| 0 <= j < i ==> v@[j] != x,
        decreases v.len() - i,
    {
        if v[i] == x {
            assert(v@[i as int] == x);
            return true;
        }
        i = i + 1;
    }
    false
}

/// The API lists each neighbour UUID once.
pub proof fn lemma_neighbor_uuids_distinct(edges: Map<u64, EdgeData>, n2u: Map<u64, u128>, n: NodeId, list: Seq<EdgeId>)
    ensures
        neighbor_uuid_list(edges, n2u, n, list).no_duplicates(),
    decreases list.len(),
{
    if list.len() > 0 {
        lemma_neighbor_uuids_distinct(edges, n2u, n, list.drop_last());
    }
}

/// Entry `j` of `list` is an edge whose other end (seen from `n`) has UUID `u`.
pub open spec fn lists_uuid(edges: Map<u64, EdgeData>, n2u: Map<u64, u128>, n: NodeId, list: Seq<EdgeId>, j: int, u: u128) -> bool {
    &&& 0 <= j < list.len()
    &&& edges.contains_key(list[j].0)
    &&& n2u.contains_key(other_end(edges[list[j].0], n).0)
    &&& n2u[other_end(edges[list[j].0], n).0] == u
}

proof fn lemma_neighbor_uuid_list_contains(edges: Map<u64, EdgeData>, n2u: Map<u64, u128>, n: NodeId, list: Seq<EdgeId>, u: u128)
    ensures
        neighbor_uuid_list(edges, n2u, n, list).contains(u) <==> exists|j: int| lists_uuid(edges, n2u, n, list, j, u),
    decreases list.len(),
{
    if list.len() > 0 {
        let pre = list.drop_last();
        lemma_neighbor_uuid_list_contains(edges, n2u, n, pre, u);
        let rest = neighbor_uuid_list(edges, n2u, n, pre);
        let last = list.len() - 1;
        if exists|j: int| lists_uuid(edges, n2u, n, pre, j, u) {
            let j = choose|j: int| lists_uuid(edges, n2u, n, pre, j, u);
            assert(pre[j] == list[j]);
            assert(lists_uuid(edges, n2u, n, list, j, u));
        }
        if exists|j: int| lists_uuid(edges, n2u, n, list, j, u) {
            let j = choose|j: int| lists_uuid(edges, n2u, n, list, j, u);
            if j < last {
                assert(pre[j] == list[j]);
                assert(lists_uuid(edges, n2u, n, pre, j, u));
            } else {
                assert(list[j] == list.last());
            }
        }
        if rest.contains(u) {
            let k = choose|k: int| 0 <= k < rest.len() && rest[k] == u;
            if neighbor_uuid_list(edges, n2u, n, list) != rest {
                assert(neighbor_uuid_list(edges, n2u, n, list)[k] == u);
            }
        }
        let full = neighbor_uuid_list(edges, n2u, n, list);
        if full.contains(u) && !rest.contains(u) {
            let k = choose|k: int| 0 <= k < full.len() && full[k] == u;
            assert(k == rest.len());
            assert(lists_uuid(edges, n2u, n, list, last, u));
        }
        if lists_uuid(edges, n2u, n, list, last, u) && !rest.contains(u) {
            assert(full[rest.len() as int] == u);
        }
    }
}

/// The API lists as neighbours of a node exactly the UUIDs of its neighbours.
pub proof fn lemma_neighbor_uuids_are_neighbors(graph: GraphData, n2u: Map<u64, u128>, n: NodeId, u: u128)
    ensures
        neighbor_uuid_list(graph.edges@, n2u, n, graph.incident(n.0)).contains(u) <==> exists|m: NodeId|
            #[trigger] graph.is_neighbor(n, m) && n2u.contains_key(m.0) && n2u[m.0] == u,
{
    let list = graph.incident(n.0);
    lemma_neighbor_uuid_list_contains(graph.edges@, n2u, n, list, u);
    if exists|j: int| lists_uuid(graph.edges@, n2u, n, list, j, u) {
        let j = choose|j: int| lists_uuid(graph.edges@, n2u, n, list, j, u);
        let m = other_end(graph.edges@[list[j].0], n);
        assert(links_to(graph.edges@, graph.adj_view(), n, j, m));
        assert(graph.is_neighbor(n, m));
    }
    if exists|m: NodeId| #[trigger] graph.is_neighbor(n, m) && n2u.contains_key(m.0) && n2u[m.0] == u {
        let m = choose|m: NodeId| #[trigger] graph.is_neighbor(n, m) && n2u.contains_key(m.0) && n2u[m.0] == u;
        let j = choose|j: int| links_to(graph.edges@, graph.adj_view(), n, j, m);
        assert(lists_uuid(graph.edges@, n2u, n, list, j, u));
    }
}

/// Neighbour UUIDs of `node_id` as the API lists them.
pub fn neighbor_uuids(graph: &GraphData, registry: &NodeUuidRegistry, node_id: NodeId) -> (out: Vec<u128>)
    ensures
        out@ == neighbor_uuid_list(graph.edges@, registry.node_to_uuid@, node_id, graph.incident(node_id.0)),
{
    let mut out: Vec<u128> = Vec::new();
    let ghost list = graph.incident(node_id.0);
    match graph.adjacency.get(&node_id.0) {
        Some(edge_ids) => {
            let mut i: usize = 0;
            assert(list.take(0) =~= Seq::<EdgeId>::empty());
            while i < edge_ids.len()
                invariant
                    edge_ids@ == list,
                    i <= edge_ids.len(),
                    out@ == neighbor_uuid_list(graph.edges@, registry.node_to_uuid@, node_id, list.take(i as int)),
                decreases edge_ids.len() - i,
            {
                let eid = edge_ids[i];
                assert(list.take(i + 1).drop_last() =~= list.take(i as int));
                match graph.edges.get(&eid.0) {
                    Some(edge) => {
                        let other = if edge.source == node_id {
                            edge.target
                        } else {
                            edge.source
                        };
                        match registry.uuid_of(other) {
                            Some(u) => {
                                if !contains_uuid(&out, u) {
                                    out.push(u);
                                }
                            },
                            None => {},
                        }
                    },
                    None => {},
                }
                i = i + 1;
            }
            assert(list.take(edge_ids.len() as int) =~= list);
        },
        None => {},
    }
    out
}

/// UUIDs in strictly ascending order.
pub open spec fn ascending_uuids(s: Seq<u128>) -> bool {
    forall|i: int, j: int| 0 <= i < j < s.len() ==> s[i] < s[j]
}

/// Pair `i` of `pairs` joins `u` and `v`, in either order.
pub open spec fn pairs_uuid(pairs: Seq<(u128, u128)>, i: int, u: u128, v: u128) -> bool {
    0 <= i < pairs.len() && ((pairs[i].0 == u && pairs[i].1 == v) || (pairs[i].1 == u && pairs[i].0 == v))
}

/// Adds `x` to the ascending vector `v` unless it is already there.
fn insert_ascending_uuid(v: &mut Vec<u128>, x: u128)
    requires
        ascending_uuids(old(v)@),
    ensures
        ascending_uuids(final(v)@),
        forall|y: u128| final(v)@.contains(y) <==> (old(v)@.contains(y) || y == x),
{
    let mut i: usize = 0;
    while i < v.len() && v[i] < x
        invariant
            v@ == old(v)@,
            ascending_uuids(old(v)@),
            i <= v.len(),
            forall|j: int| 0 <= j < i ==> v@[j] < x,
        decreases v.len() - i,
    {
        i = i + 1;
    }
    if i < v.len() && v[i] == x {
        assert(v@[i as int] == x);
        return;
    }
    let ghost before = v@;
    assert(before == old(v)@);
    v.insert(i, x);
    assert(v@ =~= before.take(i as int).push(x) + before.skip(i as int));
    assert forall|y: u128| v@.contains(y) <==> (before.contains(y) || y == x) by {
        if v@.contains(y) {
            let j = choose|j: int| 0 <= j < v@.len() && v@[j] == y;
            if j < i {
                assert(before[j] == y);
            } else if j > i {
                assert(before[j - 1] == y);
            }
        }
        if before.contains(y) {
            let j = choose|j: int| 0 <= j < before.len() && before[j] == y;
            if j < i {
                assert(v@[j] == y);
            } else {
                assert(v@[j + 1] == y);
            }
        }
        if y == x {
            assert(v@[i as int] == y);
        }
    }
    assert(forall|y: u128| v@.contains(y) <==> (old(v)@.contains(y) || y == x));
}

/// The UUIDs that some pair of `pairs` joins with `u`, ascending, each once.
pub fn overlap_partners(pairs: &Vec<(u128, u128)>, u: u128) -> (out: Vec<u128>)
    ensures
        ascending_uuids(out@),
        forall|v: u128| #[trigger] out@.contains(v) <==> exists|i: int| pairs_uuid(pairs@, i, u, v),
{
    let mut out: Vec<u128> = Vec::new();
    let mut i: usize = 0;
    while i < pairs.len()
        invariant
            i <= pairs.len(),
            ascending_uuids(out@),
            forall|v: u128| #[trigger] out@.contains(v) <==> exists|j: int| 0 <= j < i && pairs_uuid(pairs@, j, u, v),
        decreases pairs.len() - i,
    {
        let (a, b) = pairs[i];
        let ghost prev = out@;
        if a == u {
            insert_ascending_uuid(&mut out, b);
        }
        let ghost mid = out@;
        if b == u {
            insert_ascending_uuid(&mut out, a);
        }
        assert forall|v: u128| #[trigger] out@.contains(v) <==> exists|j: int| 0 <= j < i + 1 && pairs_uuid(pairs@, j, u, v) by {
            if exists|j: int| 0 <= j < i + 1 && pairs_uuid(pairs@, j, u, v) {
                let j = choose|j: int| 0 <= j < i + 1 && pairs_uuid(pairs@, j, u, v);
                if j < i {
                    assert(prev.contains(v));
                }
            }
            if out@.contains(v) && !prev.contains(v) {
                assert(pairs_uuid(pairs@, i as int, u, v));
            }
        }
        i = i + 1;
    }
    out
}

/// One node of the API snapshot. `color`, `position` are `f32` values as bit
/// patterns; `overlaps` holds the UUIDs whose rectangles overlap this node's.
pub struct SnapshotRow {
    pub uuid: u128,
    pub node_id: NodeId,
    pub name: String,
    pub data: String,
    pub color: ColorBits,
    pub position: Vec2Bits,
    pub size: TextSize,
    pub neighbors: Vec<u128>,
    pub overlaps: Vec<u128>,
}

/// A row without its overlap list, which the contracts state apart.
pub struct SnapshotRowView {
    pub uuid: u128,
    pub node_id: NodeId,
    pub name: Seq<char>,
    pub data: Seq<char>,
    pub color: ColorBits,
    pub position: Vec2Bits,
    pub size: TextSize,
    pub neighbors: Seq<u128>,
}

impl View for SnapshotRow {
    type V = SnapshotRowView;

    open spec fn view(&self) -> SnapshotRowView {
        SnapshotRowView {
            uuid: self.uuid,
            node_id: self.node_id,
            name: self.name@,
            data: self.data@,
            color: self.color,
            position: self.position,
            size: self.size,
            neighbors: self.neighbors@,
        }
    }
}

/// Rows for the UUIDs `ks`, in order: those registered for a node that
/// exists, with that node's fields and neighbour UUIDs.
pub open spec fn snapshot_rows(graph: GraphData, registry: NodeUuidRegistry, ks: Seq<u128>) -> Seq<SnapshotRowView>
    decreases ks.len(),
{
    if ks.len() == 0 {
        Seq::empty()
    } else {
        let rest = snapshot_rows(graph, registry, ks.drop_last());
        let u = ks.last();
        if registry.uuid_to_node@.contains_key(u) && graph.nodes@.contains_key(registry.uuid_to_node@[u].0) {
            let n = registry.uuid_to_node@[u];
            let d = graph.nodes@[n.0];
            rest.push(
                SnapshotRowView {
                    uuid: u,
                    node_id: n,
                    name: d.name@,
                    data: d.data@,
                    color: d.color,
                    position: d.position,
                    size: d.size,
                    neighbors: neighbor_uuid_list(graph.edges@, registry.node_to_uuid@, n, graph.incident(n.0)),
                },
            )
        } else {
            rest
        }
    }
}

/// The rows of the API snapshot: one per registered UUID whose node exists,
/// in the registry's walking order (which the hash map leaves open). Each
/// row's overlap list holds, ascending, the UUIDs that `overlap_pairs` (the
/// pairs of UUIDs whose rectangles overlap) joins with its own.
pub fn build_api_snapshot(
    graph: &GraphData,
    registry: &NodeUuidRegistry,
    overlap_pairs: &Vec<(u128, u128)>,
) -> (rows: Vec<SnapshotRow>)
    ensures
        exists|ks: Seq<u128>|
            #![trigger snapshot_rows(*graph, *registry, ks)]
            {
                &&& ks.no_duplicates()
                &&& ks.to_set() == registry.uuid_to_node@.dom()
                &&& rows@.map_values(|r: SnapshotRow| r@) == snapshot_rows(*graph, *registry, ks)
            },
        forall|i: int| 0 <= i < rows@.len() ==> ascending_uuids(#[trigger] rows@[i].overlaps@),
        forall|i: int, v: u128|
            0 <= i < rows@.len() ==> (#[trigger] rows@[i].overlaps@.contains(v) <==> exists|j: int|
                pairs_uuid(overlap_pairs@, j, rows@[i].uuid, v)),
        forall|i: int|
            0 <= i < rows@.len() ==> {
                let r = #[trigger] rows@[i];
                let d = graph.nodes@[r.node_id.0];
                &&& registry.uuid_to_node@.contains_key(r.uuid)
                &&& registry.uuid_to_node@[r.uuid] == r.node_id
                &&& graph.nodes@.contains_key(r.node_id.0)
                &&& r.name@ == d.name@
                &&& r.data@ == d.data@
                &&& r.color == d.color
                &&& r.position == d.position
                &&& r.size == d.size
            },
        forall|u: u128|
            #![trigger registry.uuid_to_node@[u]]
            registry.uuid_to_node@.contains_key(u) && graph.nodes@.contains_key(registry.uuid_to_node@[u].0) ==> exists|i: int|
                0 <= i < rows@.len() && #[trigger] rows@[i].uuid == u,
{
    let mut rows: Vec<SnapshotRow> = Vec::new();
    let ghost all = registry.uuid_to_node.keys().remaining().unref();
    assert(all.take(all.len() as int) =~= all);
    assert(all.take(0) =~= Seq::<u128>::empty());
    for k in it: registry.uuid_to_node.keys()
        invariant
            it.seq().unref() == all,
            all.no_duplicates(),
            all.to_set() == registry.uuid_to_node@.dom(),
            rows@.map_values(|r: SnapshotRow| r@) == snapshot_rows(*graph, *registry, all.take(it.index() as int)),
            forall|i: int| 0 <= i < rows@.len() ==> ascending_uuids(#[trigger] rows@[i].overlaps@),
            forall|i: int, v: u128|
                0 <= i < rows@.len() ==> (#[trigger] rows@[i].overlaps@.contains(v) <==> exists|j: int|
                    pairs_uuid(overlap_pairs@, j, rows@[i].uuid, v)),
    {
        let ghost i0 = it.index();
        let u = *k;
        proof {
            assert(u == all[i0 as int]);
            assert(all.take(i0 + 1).drop_last() =~= all.take(i0 as int));
            assert(all.take(i0 + 1).last() == u);
        }
        let ghost prev = rows@;
        match registry.node_of(u) {
            Some(n) => {
                match graph.nodes.get(&n.0) {
                    Some(d) => {
                        let neighbors = neighbor_uuids(graph, registry, n);
                        let overlaps = overlap_partners(overlap_pairs, u);
                        let row = SnapshotRow {
                            uuid: u,
                            node_id: n,
                            name: d.name.clone(),
                            data: d.data.clone(),
                            color: d.color,
                            position: d.position,
                            size: d.size,
                            neighbors,
                            overlaps,
                        };
                        rows.push(row);
                        assert(rows@.map_values(|r: SnapshotRow| r@) =~= prev.map_values(|r: SnapshotRow| r@).push(row@));
                        assert forall|i: int, v: u128|
                            0 <= i < rows@.len() implies (#[trigger] rows@[i].overlaps@.contains(v) <==> exists|j: int|
                                pairs_uuid(overlap_pairs@, j, rows@[i].uuid, v)) by {
                            if i < prev.len() {
                                assert(rows@[i] == prev[i]);
                            }
                        }
                    },
                    None => {},
                }
            },
            None => {},
        }
    }
    proof {
        lemma_snapshot_rows_fields(*graph, *registry, all);
        let vs = rows@.map_values(|r: SnapshotRow| r@);
        assert forall|i: int| 0 <= i < rows@.len() implies {
            let r = #[trigger] rows@[i];
            let d = graph.nodes@[r.node_id.0];
            &&& registry.uuid_to_node@.contains_key(r.uuid)
            &&& registry.uuid_to_node@[r.uuid] == r.node_id
            &&& graph.nodes@.contains_key(r.node_id.0)
            &&& r.name@ == d.name@
            &&& r.data@ == d.data@
            &&& r.color == d.color
            &&& r.position == d.position
            &&& r.size == d.size
        } by {
            assert(vs[i] == rows@[i]@);
        }
        assert forall|u: u128|
            #![trigger registry.uuid_to_node@[u]]
            registry.uuid_to_node@.contains_key(u) && graph.nodes@.contains_key(registry.uuid_to_node@[u].0) implies exists|i: int|
                0 <= i < rows@.len() && #[trigger] rows@[i].uuid == u by {
            assert(all.to_set().contains(u));
            let i = choose|i: int| 0 <= i < vs.len() && #[trigger] vs[i].uuid == u;
            assert(vs[i] == rows@[i]@);
        }
    }
    rows
}

/// Each row of the snapshot is of a UUID of `ks` registered for a node that
/// exists, and carries that node's name, data, colour, position and size, and
/// the UUIDs of its neighbours, each once;
/// every UUID of `ks` registered for an existing node has a row.
pub proof fn lemma_snapshot_rows_fields(graph: GraphData, registry: NodeUuidRegistry, ks: Seq<u128>)
    ensures
        forall|i: int|
            0 <= i < snapshot_rows(graph, registry, ks).len() ==> {
                let r = #[trigger] snapshot_rows(graph, registry, ks)[i];
                let d = graph.nodes@[r.node_id.0];
                &&& ks.contains(r.uuid)
                &&& registry.uuid_to_node@.contains_key(r.uuid)
                &&& registry.uuid_to_node@[r.uuid] == r.node_id
                &&& graph.nodes@.contains_key(r.node_id.0)
                &&& r.name == d.name@
                &&& r.data == d.data@
                &&& r.color == d.color
                &&& r.position == d.position
                &&& r.size == d.size
                &&& r.neighbors.no_duplicates()
                &&& forall|v: u128|
                    r.neighbors.contains(v) <==> exists|m: NodeId|
                        #[trigger] graph.is_neighbor(r.node_id, m) && registry.node_to_uuid@.contains_key(m.0)
                            && registry.node_to_uuid@[m.0] == v
            },
        forall|u: u128|
            ks.contains(u) && registry.uuid_to_node@.contains_key(u) && graph.nodes@.contains_key(registry.uuid_to_node@[u].0)
                ==> exists|i: int|
                0 <= i < snapshot_rows(graph, registry, ks).len() && #[trigger] snapshot_rows(graph, registry, ks)[i].uuid == u,
    decreases ks.len(),
{
    if ks.len() > 0 {
        let pre = ks.drop_last();
        lemma_snapshot_rows_fields(graph, registry, pre);
        let rest = snapshot_rows(graph, registry, pre);
        let rows = snapshot_rows(graph, registry, ks);
        assert forall|x: u128| pre.contains(x) implies ks.contains(x) by {
            let j = choose|j: int| 0 <= j < pre.len() && pre[j] == x;
            assert(ks[j] == x);
        }
        assert forall|i: int| 0 <= i < rest.len() implies rows[i] == rest[i] by {}
        assert forall|u: u128|
            ks.contains(u) && registry.uuid_to_node@.contains_key(u) && graph.nodes@.contains_key(registry.uuid_to_node@[u].0)
                implies exists|i: int| 0 <= i < rows.len() && #[trigger] rows[i].uuid == u by {
            let j = choose|j: int| 0 <= j < ks.len() && ks[j] == u;
            if j < pre.len() {
                assert(pre[j] == u);
                assert(pre.contains(u));
                let i = choose|i: int| 0 <= i < rest.len() && #[trigger] rest[i].uuid == u;
                assert(rows[i] == rest[i]);
            } else {
                assert(rows[rows.len() - 1].uuid == u);
            }
        }
        assert(ks.contains(ks.last())) by {
            assert(ks[ks.len() - 1] == ks.last());
        }
        let u = ks.last();
        if registry.uuid_to_node@.contains_key(u) && graph.nodes@.contains_key(registry.uuid_to_node@[u].0) {
            let n = registry.uuid_to_node@[u];
            let n2u = registry.node_to_uuid@;
            lemma_neighbor_uuids_distinct(graph.edges@, n2u, n, graph.incident(n.0));
            assert forall|v: u128|
                neighbor_uuid_list(graph.edges@, n2u, n, graph.incident(n.0)).contains(v) <==> exists|m: NodeId|
                    #[trigger] graph.is_neighbor(n, m) && n2u.contains_key(m.0) && n2u[m.0] == v by {
                lemma_neighbor_uuids_are_neighbors(graph, n2u, n, v);
            }
            assert(rows[rows.len() - 1].node_id == n);
        }
    }
}

} // verus!
