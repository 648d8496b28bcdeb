//! What the graph does with each command the HTTP API (or the persistence
//! restore) sends: which node ids it allocates, how the registry changes and
//! which graph events it issues.

use vstd::prelude::*;

use crate::api::state::{hex_color_sliceable, hex_color_value, maps_inverse, parse_hex_color, NodeUuidRegistry};
use vstd::string::StringSliceAdditionalSpecFns;
use crate::graph::model::{GraphData, NodeId, Vec2Bits};
use crate::uuid_text::{is_v4_uuid, new_v4_uuid};

verus! {

/// A command for the graph, as the API layer sends it. UUIDs are their 128-bit
/// values; a colour is three channel bytes (absent when none was given or it
/// did not parse).
pub enum ApiCommand {
    CreateNode {
        uuid: u128,
        name: String,
        data: String,
        color: Option<[u8; 3]>,
        edges: Vec<u128>,
        position: Vec2Bits,
    },
    UpdateNode {
        uuid: u128,
        name: String,
        data: String,
        color: Option<[u8; 3]>,
        edges: Vec<u128>,
        position: Vec2Bits,
    },
    DeleteNode { uuid: u128 },
}

pub enum ApiCommandView {
    CreateNode {
        uuid: u128,
        name: Seq<char>,
        data: Seq<char>,
        color: Option<[u8; 3]>,
        edges: Seq<u128>,
        position: Vec2Bits,
    },
    UpdateNode {
        uuid: u128,
        name: Seq<char>,
        data: Seq<char>,
        color: Option<[u8; 3]>,
        edges: Seq<u128>,
        position: Vec2Bits,
    },
    DeleteNode { uuid: u128 },
}

impl View for ApiCommand {
    type V = ApiCommandView;

    open spec fn view(&self) -> ApiCommandView {
        match self {
            ApiCommand::CreateNode { uuid, name, data, color, edges, position } => ApiCommandView::CreateNode {
                uuid: *uuid,
                name: name@,
                data: data@,
                color: *color,
                edges: edges@,
                position: *position,
            },
            ApiCommand::UpdateNode { uuid, name, data, color, edges, position } => ApiCommandView::UpdateNode {
                uuid: *uuid,
                name: name@,
                data: data@,
                color: *color,
                edges: edges@,
                position: *position,
            },
            ApiCommand::DeleteNode { uuid } => ApiCommandView::DeleteNode { uuid: *uuid },
        }
    }
}

/// An event for the graph systems. An `AddNode` without colour gets a random
/// hue from the caller.
pub enum GraphEvent {
    AddNode { id: NodeId, name: String, data: String, color: Option<[u8; 3]>, position: Vec2Bits },
    AddEdge { source: NodeId, target: NodeId },
    DeleteNode { id: NodeId },
    UpdateNode {
        id: NodeId,
        name: String,
        data: String,
        color: Option<[u8; 3]>,
        position: Vec2Bits,
        desired_neighbor_ids: Vec<NodeId>,
    },
}

pub enum GraphEventView {
    AddNode { id: NodeId, name: String, data: String, color: Option<[u8; 3]>, position: Vec2Bits },
    AddEdge { source: NodeId, target: NodeId },
    DeleteNode { id: NodeId },
    UpdateNode {
        id: NodeId,
        name: String,
        data: String,
        color: Option<[u8; 3]>,
        position: Vec2Bits,
        desired_neighbor_ids: Seq<NodeId>,
    },
}

impl View for GraphEvent {
    type V = GraphEventView;

    open spec fn view(&self) -> GraphEventView {
        match self {
            GraphEvent::AddNode { id, name, data, color, position } => GraphEventView::AddNode {
                id: *id,
                name: *name,
                data: *data,
                color: *color,
                position: *position,
            },
            GraphEvent::AddEdge { source, target } => GraphEventView::AddEdge { source: *source, target: *target },
            GraphEvent::DeleteNode { id } => GraphEventView::DeleteNode { id: *id },
            GraphEvent::UpdateNode { id, name, data, color, position, desired_neighbor_ids } => GraphEventView::UpdateNode {
                id: *id,
                name: *name,
                data: *data,
                color: *color,
                position: *position,
                desired_neighbor_ids: desired_neighbor_ids@,
            },
        }
    }
}

/// The node ids registered for `uuids`, in order, unregistered ones skipped.
pub open spec fn registered_nodes(reg: Map<u128, NodeId>, uuids: Seq<u128>) -> Seq<NodeId>
    decreases uuids.len(),
{
    if uuids.len() == 0 {
        Seq::empty()
    } else {
        let rest = registered_nodes(reg, uuids.drop_last());
        if reg.contains_key(uuids.last()) {
            rest.push(reg[uuids.last()])
        } else {
            rest
        }
    }
}

/// One `AddEdge` from `source` to each of `targets`, in order.
pub open spec fn edge_events(source: NodeId, targets: Seq<NodeId>) -> Seq<GraphEventView> {
    targets.map_values(|t: NodeId| GraphEventView::AddEdge { source, target: t })
}

fn resolve_uuids(registry: &NodeUuidRegistry, uuids: &Vec<u128>) -> (r: Vec<NodeId>)
    ensures
        r@ == registered_nodes(registry.uuid_to_node@, uuids@),
{
    let mut out: Vec<NodeId> = Vec::new();
    let mut i: usize = 0;
    assert(uuids@.take(0) =~= Seq::<u128>::empty());
    while i < uuids.len()
        invariant
            i <= uuids.len(),
            out@ == registered_nodes(registry.uuid_to_node@, uuids@.take(i as int)),
        decreases uuids.len() - i,
    {
        assert(uuids@.take(i + 1).drop_last() =~= uuids@.take(i as int));
        match registry.node_of(uuids[i]) {
            Some(n) => out.push(n),
            None => {},
        }
        i = i + 1;
    }
    assert(uuids@.take(uuids.len() as int) =~= uuids@);
    out
}

/// Handles one API command.
///
/// * `CreateNode`: allocates the next node id, registers the UUID for it,
///   issues `AddNode` with that id, then one `AddEdge` from it to each listed
///   UUID that is registered (the new node's own UUID included).
/// * `UpdateNode`: for a registered UUID, issues `UpdateNode` for its node with
///   the registered ones of the listed UUIDs as desired neighbours; else nothing.
/// * `DeleteNode`: for a registered UUID, issues `DeleteNode` for its node and
///   unregisters it; else nothing.
pub fn handle_api_command(registry: &mut NodeUuidRegistry, graph: &mut GraphData, cmd: ApiCommand) -> (events: Vec<GraphEvent>)
    requires
        cmd is CreateNode ==> old(graph).node_counter() < u64::MAX,
    ensures
        match cmd {
            ApiCommand::CreateNode { uuid, name, data, color, edges, position } => {
                let id = NodeId(old(graph).node_counter());
                &&& final(graph).node_counter() == old(graph).node_counter() + 1
                &&& final(graph).edge_counter() == old(graph).edge_counter()
                &&& final(graph).nodes == old(graph).nodes
                &&& final(graph).edges == old(graph).edges
                &&& final(graph).adjacency == old(graph).adjacency
                &&& final(registry).uuid_to_node@ == old(registry).uuid_to_node@.insert(uuid, id)
                &&& final(registry).node_to_uuid@ == old(registry).node_to_uuid@.insert(id.0, uuid)
                &&& events@.map_values(|e: GraphEvent| e@) == seq![
                    GraphEventView::AddNode { id, name, data, color, position },
                ] + edge_events(id, registered_nodes(final(registry).uuid_to_node@, edges@))
            },
            ApiCommand::UpdateNode { uuid, name, data, color, edges, position } => {
                &&& *final(graph) == *old(graph)
                &&& final(registry).uuid_to_node@ == old(registry).uuid_to_node@
                &&& final(registry).node_to_uuid@ == old(registry).node_to_uuid@
                &&& events@.map_values(|e: GraphEvent| e@) == if old(registry).uuid_to_node@.contains_key(uuid) {
                    seq![
                        GraphEventView::UpdateNode {
                            id: old(registry).uuid_to_node@[uuid],
                            name,
                            data,
                            color,
                            position,
                            desired_neighbor_ids: registered_nodes(old(registry).uuid_to_node@, edges@),
                        },
                    ]
                } else {
                    Seq::empty()
                }
            },
            ApiCommand::DeleteNode { uuid } => {
                &&& *final(graph) == *old(graph)
                &&& final(registry).uuid_to_node@ == old(registry).uuid_to_node@.remove(uuid)
                &&& if old(registry).uuid_to_node@.contains_key(uuid) {
                    let id = old(registry).uuid_to_node@[uuid];
                    &&& final(registry).node_to_uuid@ == old(registry).node_to_uuid@.remove(id.0)
                    &&& events@.map_values(|e: GraphEvent| e@) == seq![GraphEventView::DeleteNode { id }]
                } else {
                    &&& final(registry).node_to_uuid@ == old(registry).node_to_uuid@
                    &&& events@.len() == 0
                }
            },
        },
{
    let mut events: Vec<GraphEvent> = Vec::new();
    match cmd {
        ApiCommand::CreateNode { uuid, name, data, color, edges, position } => {
            let node_id = graph.next_node_id();
            registry.register(uuid, node_id);
            let ghost head = GraphEventView::AddNode { id: node_id, name, data, color, position };
            events.push(GraphEvent::AddNode { id: node_id, name, data, color, position });
            let targets = resolve_uuids(registry, &edges);
            let ghost tv = targets@;
            let mut i: usize = 0;
            while i < targets.len()
                invariant
                    targets@ == tv,
                    i <= targets.len(),
                    events@.map_values(|e: GraphEvent| e@) =~= seq![head] + edge_events(node_id, tv.take(i as int)),
                decreases targets.len() - i,
            {
                let ghost prev = events@;
                let ev = GraphEvent::AddEdge { source: node_id, target: targets[i] };
                assert(ev@ == GraphEventView::AddEdge { source: node_id, target: tv[i as int] });
                events.push(ev);
                assert(events@ == prev.push(ev));
                assert(events@.map_values(|e: GraphEvent| e@) =~= prev.map_values(|e: GraphEvent| e@).push(ev@));
                assert(tv.take(i + 1) =~= tv.take(i as int).push(tv[i as int]));
                assert(edge_events(node_id, tv.take(i + 1)) =~= edge_events(node_id, tv.take(i as int)).push(
                    GraphEventView::AddEdge { source: node_id, target: tv[i as int] },
                ));
                i = i + 1;
            }
            assert(tv.take(targets.len() as int) =~= tv);
        },
        ApiCommand::UpdateNode { uuid, name, data, color, edges, position } => {
            match registry.node_of(uuid) {
                Some(node_id) => {
                    let desired = resolve_uuids(registry, &edges);
                    events.push(GraphEvent::UpdateNode {
                        id: node_id,
                        name,
                        data,
                        color,
                        position,
                        desired_neighbor_ids: desired,
                    });
                },
                None => {},
            }
        },
        ApiCommand::DeleteNode { uuid } => {
            match registry.node_of(uuid) {
                Some(node_id) => {
                    events.push(GraphEvent::DeleteNode { id: node_id });
                    registry.remove_by_uuid(uuid);
                },
                None => {
                    assert(registry.uuid_to_node@ =~= old(registry).uuid_to_node@.remove(uuid));
                },
            }
        },
    }
    events
}

/// What the command handler keeps between commands: the two registry maps
/// and the node id counter.
pub struct ApiState {
    pub u2n: Map<u128, NodeId>,
    pub n2u: Map<u64, u128>,
    pub next: u64,
}

/// One command's effect on the state, and the events it issues.
pub open spec fn api_step(st: ApiState, cmd: ApiCommand) -> (ApiState, Seq<GraphEventView>) {
    match cmd {
        ApiCommand::CreateNode { uuid, name, data, color, edges, position } => {
            let id = NodeId(st.next);
            let u2n = st.u2n.insert(uuid, id);
            (
                ApiState { u2n, n2u: st.n2u.insert(id.0, uuid), next: (st.next + 1) as u64 },
                seq![GraphEventView::AddNode { id, name, data, color, position }] + edge_events(
                    id,
                    registered_nodes(u2n, edges@),
                ),
            )
        },
        ApiCommand::UpdateNode { uuid, name, data, color, edges, position } => (
            st,
            if st.u2n.contains_key(uuid) {
                seq![
                    GraphEventView::UpdateNode {
                        id: st.u2n[uuid],
                        name,
                        data,
                        color,
                        position,
                        desired_neighbor_ids: registered_nodes(st.u2n, edges@),
                    },
                ]
            } else {
                Seq::empty()
            },
        ),
        ApiCommand::DeleteNode { uuid } => if st.u2n.contains_key(uuid) {
            (
                ApiState { u2n: st.u2n.remove(uuid), n2u: st.n2u.remove(st.u2n[uuid].0), next: st.next },
                seq![GraphEventView::DeleteNode { id: st.u2n[uuid] }],
            )
        } else {
            (st, Seq::empty())
        },
    }
}

/// The commands of `cmds` applied in order: the final state and all events.
pub open spec fn api_run(st: ApiState, cmds: Seq<ApiCommand>) -> (ApiState, Seq<GraphEventView>)
    decreases cmds.len(),
{
    if cmds.len() == 0 {
        (st, Seq::empty())
    } else {
        let (s1, e1) = api_run(st, cmds.drop_last());
        let (s2, e2) = api_step(s1, cmds.last());
        (s2, e1 + e2)
    }
}

proof fn lemma_api_run_counter(st: ApiState, cmds: Seq<ApiCommand>)
    requires
        st.next + cmds.len() < u64::MAX,
    ensures
        st.next <= api_run(st, cmds).0.next <= st.next + cmds.len(),
    decreases cmds.len(),
{
    if cmds.len() > 0 {
        lemma_api_run_counter(st, cmds.drop_last());
    }
}

/// The maps are inverse to each other and every registered node id lies
/// below the counter.
pub open spec fn api_state_sound(st: ApiState) -> bool {
    &&& maps_inverse(st.u2n, st.n2u)
    &&& forall|n: u64| #[trigger] st.n2u.contains_key(n) ==> n < st.next
}

/// Every command that does not register an already registered UUID keeps
/// the registry a two-way map whose node ids lie below the counter.
pub proof fn lemma_api_step_sound(st: ApiState, cmd: ApiCommand)
    requires
        api_state_sound(st),
        st.next < u64::MAX,
        cmd matches ApiCommand::CreateNode { uuid, .. } ==> !st.u2n.contains_key(uuid),
    ensures
        api_state_sound(api_step(st, cmd).0),
{
    match cmd {
        ApiCommand::CreateNode { uuid, .. } => {
            assert(!st.n2u.contains_key(st.next));
        },
        ApiCommand::UpdateNode { .. } => {},
        ApiCommand::DeleteNode { uuid } => {
            if st.u2n.contains_key(uuid) {
                let t = api_step(st, cmd).0;
                assert forall|n: u64| #[trigger] t.n2u.contains_key(n) implies t.u2n.contains_key(t.n2u[n])
                    && t.u2n[t.n2u[n]] == NodeId(n) by {
                    assert(st.n2u.contains_key(n));
                    assert(st.n2u[n] != uuid);
                }
            }
        },
    }
}

/// The registry and node counter of `registry` and `graph` as a state.
pub open spec fn api_state(registry: NodeUuidRegistry, graph: GraphData) -> ApiState {
    ApiState { u2n: registry.uuid_to_node@, n2u: registry.node_to_uuid@, next: graph.node_counter() }
}

/// Handles the commands of `cmds` in order. The graph itself does not change
/// here (only its node counter); the events carry the changes.
pub fn apply_api_commands(registry: &mut NodeUuidRegistry, graph: &mut GraphData, cmds: Vec<ApiCommand>) -> (events: Vec<
    GraphEvent,
>)
    requires
        old(graph).node_counter() + cmds@.len() < u64::MAX,
    ensures
        ({
            let (st, evs) = api_run(api_state(*old(registry), *old(graph)), cmds@);
            &&& api_state(*final(registry), *final(graph)) == st
            &&& events@.map_values(|e: GraphEvent| e@) == evs
        }),
        final(graph).edge_counter() == old(graph).edge_counter(),
        final(graph).nodes == old(graph).nodes,
        final(graph).edges == old(graph).edges,
        final(graph).adjacency == old(graph).adjacency,
{
    broadcast use vstd::std_specs::vec::group_vec_axioms;

    let ghost st0 = api_state(*registry, *graph);
    let ghost all = cmds@;
    let ghost g0 = *graph;
    let mut events: Vec<GraphEvent> = Vec::new();
    assert(all.take(0) =~= Seq::<ApiCommand>::empty());
    for cmd in it: cmds.into_iter()
        invariant
            it.seq() == all,
            g0.node_counter() + all.len() < u64::MAX,
            ({
                let (st, evs) = api_run(st0, all.take(it.index() as int));
                &&& api_state(*registry, *graph) == st
                &&& events@.map_values(|e: GraphEvent| e@) == evs
            }),
            graph.edge_counter() == g0.edge_counter(),
            graph.nodes == g0.nodes,
            graph.edges == g0.edges,
            graph.adjacency == g0.adjacency,
            st0.next == g0.node_counter(),
    {
        let ghost i0 = it.index();
        let ghost pre = all.take(i0 as int);
        let ghost next = all.take(i0 + 1);
        proof {
            assert(next.drop_last() =~= pre);
            assert(next.last() == cmd);
            lemma_api_run_counter(st0, pre);
        }
        let ghost before = events@;
        let ghost r0 = *registry;
        let ghost gr0 = *graph;
        let ghost c = cmd;
        let mut evs = handle_api_command(registry, graph, cmd);
        let ghost evs0 = evs@;
        events.append(&mut evs);
        proof {
            let s1 = api_state(r0, gr0);
            assert(api_run(st0, next) == (api_step(s1, c).0, api_run(st0, pre).1 + api_step(s1, c).1));
            match c {
                ApiCommand::CreateNode { uuid, name, data, color, edges, position } => {
                    assert(api_state(*registry, *graph) == api_step(s1, c).0);
                    assert(evs0.map_values(|e: GraphEvent| e@) == api_step(s1, c).1);
                },
                ApiCommand::UpdateNode { uuid, name, data, color, edges, position } => {
                    assert(api_state(*registry, *graph) == api_step(s1, c).0);
                    assert(evs0.map_values(|e: GraphEvent| e@) == api_step(s1, c).1);
                },
                ApiCommand::DeleteNode { uuid } => {
                    if !s1.u2n.contains_key(uuid) {
                        assert(s1.u2n.remove(uuid) =~= s1.u2n);
                    }
                    assert(api_state(*registry, *graph) == api_step(s1, c).0);
                    assert(evs0.map_values(|e: GraphEvent| e@) == api_step(s1, c).1);
                },
            }
            assert(events@.map_values(|e: GraphEvent| e@) =~= before.map_values(|e: GraphEvent| e@) + api_step(
                s1,
                c,
            ).1);
        }
    }
    assert(all.take(all.len() as int) =~= all);
    events
}

/// Creating a node under a fresh UUID and then deleting that UUID leaves the
/// registry as it was (the node counter has moved on), and the deletion is
/// issued for the node the creation made.
pub proof fn lemma_create_then_delete(st: ApiState, create: ApiCommand, uuid: u128)
    requires
        create matches ApiCommand::CreateNode { uuid: u, .. } && u == uuid,
        !st.u2n.contains_key(uuid),
        !st.n2u.contains_key(st.next),
        st.next < u64::MAX,
    ensures
        ({
            let s1 = api_step(st, create).0;
            let (s2, evs) = api_step(s1, ApiCommand::DeleteNode { uuid });
            &&& s2.u2n == st.u2n
            &&& s2.n2u == st.n2u
            &&& s2.next == st.next + 1
            &&& evs == seq![GraphEventView::DeleteNode { id: NodeId(st.next) }]
        }),
{
    let id = NodeId(st.next);
    assert(st.u2n.insert(uuid, id).remove(uuid) =~= st.u2n);
    assert(st.n2u.insert(id.0, uuid).remove(id.0) =~= st.n2u);
}

/// The command for a node-creation request under `uuid`: the colour text
/// parsed when there is one (an unreadable one counts as none), and no
/// neighbours when none were listed.
pub open spec fn requested_create(
    uuid: u128,
    name: Seq<char>,
    data: Seq<char>,
    color: Option<Seq<u8>>,
    edges: Option<Seq<u128>>,
    position: Vec2Bits,
) -> ApiCommandView {
    ApiCommandView::CreateNode {
        uuid,
        name,
        data,
        color: match color {
            Some(c) => hex_color_value(c),
            None => None,
        },
        edges: match edges {
            Some(e) => e,
            None => Seq::empty(),
        },
        position,
    }
}

/// The colour text of a request, as bytes.
pub open spec fn color_bytes(color: Option<&str>) -> Option<Seq<u8>> {
    match color {
        Some(c) => Some(c.spec_bytes()),
        None => None,
    }
}

/// The edge list of a request, as a sequence.
pub open spec fn edge_seq(edges: Option<Vec<u128>>) -> Option<Seq<u128>> {
    match edges {
        Some(e) => Some(e@),
        None => None,
    }
}

/// The command for a node-creation request under a given UUID.
pub fn create_node_command(
    uuid: u128,
    name: String,
    data: String,
    color: Option<&str>,
    edges: Option<Vec<u128>>,
    position: Vec2Bits,
) -> (cmd: ApiCommand)
    requires
        match color {
            Some(c) => hex_color_sliceable(c.spec_bytes()),
            None => true,
        },
    ensures
        cmd@ == requested_create(uuid, name@, data@, color_bytes(color), edge_seq(edges), position),
{
    let color = match color {
        Some(c) => parse_hex_color(c),
        None => None,
    };
    let edges = match edges {
        Some(e) => e,
        None => Vec::new(),
    };
    ApiCommand::CreateNode { uuid, name, data, color, edges, position }
}

/// A node-creation request: a fresh random (version 4) UUID for the node and
/// the command that creates it under that UUID.
pub fn create_node_request(
    name: String,
    data: String,
    color: Option<&str>,
    edges: Option<Vec<u128>>,
    position: Vec2Bits,
) -> (r: (u128, ApiCommand))
    requires
        match color {
            Some(c) => hex_color_sliceable(c.spec_bytes()),
            None => true,
        },
    ensures
        is_v4_uuid(r.0),
        r.1@ == requested_create(r.0, name@, data@, color_bytes(color), edge_seq(edges), position),
{
    let uuid = new_v4_uuid();
    let cmd = create_node_command(uuid, name, data, color, edges, position);
    (uuid, cmd)
}

} // verus!
