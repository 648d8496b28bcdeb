//! Restoring the graph from its stored snapshot, in two phases (all nodes
//! first, then their edges), and deciding when to write the snapshot.

use vstd::prelude::*;
use vstd::utf8::encode_utf8;

use crate::api::commands::{api_run, ApiCommand, ApiCommandView, ApiState};
use crate::api::state::{hex_color_sliceable, hex_color_value, parse_hex_color};
use crate::graph::model::{NodeId, Vec2Bits};
use crate::uuid_text::{
    uuid_hyphenated, uuid_json_array, uuid_json_list, uuid_list_from_json, uuid_list_to_json, uuid_parse_str,
    uuid_text_value, uuid_to_text,
};

verus! {

/// A stored node row. `position` and `size` are `f32` pairs as bit patterns.
pub struct StoredNode {
    pub id: u128,
    pub name: String,
    pub data: String,
    pub color: String,
    pub edges: Vec<u128>,
    pub position: Vec2Bits,
    pub size: Vec2Bits,
}

/// The key columns of a stored row as they read back: the id (its text must
/// be a UUID) and the neighbour list (JSON; unreadable JSON counts as no
/// neighbours). `None` when the id does not read.
pub open spec fn decoded_row_keys(id_text: Seq<char>, edges_json: Seq<char>) -> Option<(u128, Seq<u128>)> {
    match uuid_text_value(id_text) {
        Some(id) => Some(
            (
                id,
                match uuid_json_list(edges_json) {
                    Some(l) => l,
                    None => Seq::empty(),
                },
            ),
        ),
        None => None,
    }
}

/// Decodes the key columns of a stored row.
pub fn decode_row_keys(id_text: &str, edges_json: &str) -> (r: Result<(u128, Vec<u128>), uuid::Error>)
    ensures
        match r {
            Ok((id, edges)) => decoded_row_keys(id_text@, edges_json@) == Some((id, edges@)),
            Err(_) => decoded_row_keys(id_text@, edges_json@) is None,
        },
{
    let edges = match uuid_list_from_json(edges_json) {
        Some(v) => v,
        None => Vec::new(),
    };
    match uuid_parse_str(id_text) {
        Ok(id) => Ok((id, edges)),
        Err(e) => Err(e),
    }
}

/// The key columns of a stored row: the id as hyphenated text and the
/// neighbour list as a JSON array of such texts. They decode to the same id
/// and list.
pub fn encode_row_keys(id: u128, edges: &Vec<u128>) -> (r: (String, String))
    ensures
        r.0@ == uuid_hyphenated(id),
        r.1@ == uuid_json_array(edges@),
        decoded_row_keys(r.0@, r.1@) == Some((id, edges@)),
{
    (uuid_to_text(id), uuid_list_to_json(edges))
}

/// Two-phase restore: create all nodes (no edges), then connect edges.
pub enum PendingGraphLoad {
    /// Nothing to load, or finished.
    Idle,
    /// Send `CreateNode` with no edges for each row.
    PendingCreates { rows: Vec<StoredNode> },
    /// Wait until the registry holds as many nodes as there are rows, then
    /// send `UpdateNode` with the edges.
    PendingEdges { rows: Vec<StoredNode> },
}

impl PendingGraphLoad {
    pub fn from_rows(rows: Vec<StoredNode>) -> (r: PendingGraphLoad)
        ensures
            rows@.len() == 0 ==> (r is Idle),
            rows@.len() > 0 ==> (r == PendingGraphLoad::PendingCreates { rows }),
    {
        if rows.len() == 0 {
            PendingGraphLoad::Idle
        } else {
            PendingGraphLoad::PendingCreates { rows }
        }
    }
}

/// Every row's colour text can be parsed without panicking.
pub open spec fn colors_sliceable(rows: Seq<StoredNode>) -> bool {
    forall|i: int| 0 <= i < rows.len() ==> hex_color_sliceable(encode_utf8(#[trigger] rows[i].color@))
}

/// The command that creates the node of row `r`, without its edges.
pub open spec fn create_command(r: StoredNode) -> ApiCommandView {
    ApiCommandView::CreateNode {
        uuid: r.id,
        name: r.name@,
        data: r.data@,
        color: hex_color_value(encode_utf8(r.color@)),
        edges: Seq::empty(),
        position: r.position,
    }
}

/// The command that sets the node of row `r` again, now with its edges.
pub open spec fn update_command(r: StoredNode) -> ApiCommandView {
    ApiCommandView::UpdateNode {
        uuid: r.id,
        name: r.name@,
        data: r.data@,
        color: hex_color_value(encode_utf8(r.color@)),
        edges: r.edges@,
        position: r.position,
    }
}

fn copy_uuids(v: &Vec<u128>) -> (r: Vec<u128>)
    ensures
        r@ == v@,
{
    let mut out: Vec<u128> = Vec::new();
    let mut i: usize = 0;
    while i < v.len()
        invariant
            i <= v.len(),
            out@ == v@.take(i as int),
        decreases v.len() - i,
    {
        out.push(v[i]);
        assert(v@.take(i + 1) =~= v@.take(i as int).push(v@[i as int]));
        i = i + 1;
    }
    assert(v@.take(v.len() as int) =~= v@);
    out
}

/// The command of row `r` in the first phase (without edges) or the second.
pub open spec fn row_command(r: StoredNode, with_edges: bool) -> ApiCommandView {
    if with_edges {
        update_command(r)
    } else {
        create_command(r)
    }
}

/// `cmds` are the commands of `rows` for one phase, one per row, in order.
pub open spec fn commands_of_rows(cmds: Seq<ApiCommand>, rows: Seq<StoredNode>, with_edges: bool) -> bool {
    &&& cmds.len() == rows.len()
    &&& forall|i: int| 0 <= i < cmds.len() ==> #[trigger] cmds[i]@ == row_command(rows[i], with_edges)
}

/// The restore commands of one phase carry their rows as stored: command `i`
/// is for the UUID of row `i`, with its name, data, colour (parsed from its
/// text) and position; the first phase creates the node without edges, the
/// second updates it with the row's edges.
pub proof fn lemma_restore_commands_carry_rows(cmds: Seq<ApiCommand>, rows: Seq<StoredNode>, with_edges: bool)
    requires
        commands_of_rows(cmds, rows, with_edges),
    ensures
        cmds.len() == rows.len(),
        forall|i: int|
            0 <= i < cmds.len() ==> match #[trigger] cmds[i]@ {
                ApiCommandView::CreateNode { uuid, name, data, color, edges, position } => {
                    &&& !with_edges
                    &&& uuid == rows[i].id
                    &&& name == rows[i].name@
                    &&& data == rows[i].data@
                    &&& color == hex_color_value(encode_utf8(rows[i].color@))
                    &&& edges.len() == 0
                    &&& position == rows[i].position
                },
                ApiCommandView::UpdateNode { uuid, name, data, color, edges, position } => {
                    &&& with_edges
                    &&& uuid == rows[i].id
                    &&& name == rows[i].name@
                    &&& data == rows[i].data@
                    &&& color == hex_color_value(encode_utf8(rows[i].color@))
                    &&& edges == rows[i].edges@
                    &&& position == rows[i].position
                },
                ApiCommandView::DeleteNode { .. } => false,
            },
{
    assert forall|i: int| 0 <= i < cmds.len() implies match #[trigger] cmds[i]@ {
        ApiCommandView::CreateNode { uuid, name, data, color, edges, position } => {
            &&& !with_edges
            &&& uuid == rows[i].id
            &&& name == rows[i].name@
            &&& data == rows[i].data@
            &&& color == hex_color_value(encode_utf8(rows[i].color@))
            &&& edges.len() == 0
            &&& position == rows[i].position
        },
        ApiCommandView::UpdateNode { uuid, name, data, color, edges, position } => {
            &&& with_edges
            &&& uuid == rows[i].id
            &&& name == rows[i].name@
            &&& data == rows[i].data@
            &&& color == hex_color_value(encode_utf8(rows[i].color@))
            &&& edges == rows[i].edges@
            &&& position == rows[i].position
        },
        ApiCommandView::DeleteNode { .. } => false,
    } by {
        assert(cmds[i]@ == row_command(rows[i], with_edges));
    }
}

fn row_commands(rows: &Vec<StoredNode>, with_edges: bool) -> (cmds: Vec<ApiCommand>)
    requires
        colors_sliceable(rows@),
    ensures
        commands_of_rows(cmds@, rows@, with_edges),
{
    let mut cmds: Vec<ApiCommand> = Vec::new();
    let mut i: usize = 0;
    while i < rows.len()
        invariant
            i <= rows.len(),
            colors_sliceable(rows@),
            cmds@.len() == i,
            forall|j: int| 0 <= j < i ==> #[trigger] cmds@[j]@ == row_command(rows@[j], with_edges),
        decreases rows.len() - i,
    {
        let row = &rows[i];
        assert(hex_color_sliceable(encode_utf8(rows@[i as int].color@)));
        let color = parse_hex_color(row.color.as_str());
        let cmd = if with_edges {
            ApiCommand::UpdateNode {
                uuid: row.id,
                name: row.name.clone(),
                data: row.data.clone(),
                color,
                edges: copy_uuids(&row.edges),
                position: row.position,
            }
        } else {
            ApiCommand::CreateNode {
                uuid: row.id,
                name: row.name.clone(),
                data: row.data.clone(),
                color,
                edges: Vec::new(),
                position: row.position,
            }
        };
        cmds.push(cmd);
        i = i + 1;
    }
    cmds
}

/// First restore phase: for pending creates, one `CreateNode` (without edges)
/// per row, and the load moves on to waiting for the edges. Any other state
/// is left alone and nothing is sent.
pub fn inject_load_creates(pending: &mut PendingGraphLoad) -> (cmds: Vec<ApiCommand>)
    requires
        match *old(pending) {
            PendingGraphLoad::PendingCreates { rows } => colors_sliceable(rows@),
            _ => true,
        },
    ensures
        match *old(pending) {
            PendingGraphLoad::PendingCreates { rows } => if rows@.len() == 0 {
                &&& *final(pending) is Idle
                &&& cmds@.len() == 0
            } else {
                &&& *final(pending) == PendingGraphLoad::PendingEdges { rows }
                &&& commands_of_rows(cmds@, rows@, false)
            },
            _ => {
                &&& *final(pending) == *old(pending)
                &&& cmds@.len() == 0
            },
        },
{
    let mut state = PendingGraphLoad::Idle;
    std::mem::swap(pending, &mut state);
    match state {
        PendingGraphLoad::PendingCreates { rows } => {
            if rows.len() == 0 {
                return Vec::new();
            }
            let cmds = row_commands(&rows, false);
            *pending = PendingGraphLoad::PendingEdges { rows };
            cmds
        },
        other => {
            *pending = other;
            Vec::new()
        },
    }
}

/// Second restore phase: once the registry holds as many nodes as there are
/// rows, one `UpdateNode` (with edges) per row, and the load is done.
/// Otherwise nothing changes and nothing is sent.
pub fn inject_load_edges(pending: &mut PendingGraphLoad, registry_len: usize) -> (cmds: Vec<ApiCommand>)
    requires
        match *old(pending) {
            PendingGraphLoad::PendingEdges { rows } => colors_sliceable(rows@),
            _ => true,
        },
    ensures
        match *old(pending) {
            PendingGraphLoad::PendingEdges { rows } => if rows@.len() == registry_len {
                &&& *final(pending) is Idle
                &&& commands_of_rows(cmds@, rows@, true)
            } else {
                &&& *final(pending) == *old(pending)
                &&& cmds@.len() == 0
            },
            _ => {
                &&& *final(pending) == *old(pending)
                &&& cmds@.len() == 0
            },
        },
{
    let expected = match pending {
        PendingGraphLoad::PendingEdges { rows } => rows.len(),
        _ => return Vec::new(),
    };
    if registry_len != expected {
        return Vec::new();
    }
    let mut state = PendingGraphLoad::Idle;
    std::mem::swap(pending, &mut state);
    match state {
        PendingGraphLoad::PendingEdges { rows } => {
            let cmds = row_commands(&rows, true);
            cmds
        },
        other => {
            *pending = other;
            Vec::new()
        },
    }
}

/// What the snapshot writer does this frame.
pub enum PersistStep {
    /// Nothing changed since the last write.
    Nothing,
    /// There is no database: forget the change.
    ClearDirty,
    /// Write the snapshot (and clear the flag if that succeeds).
    Save,
}

pub fn persist_step(dirty: bool, has_connection: bool) -> (step: PersistStep)
    ensures
        !dirty ==> (step is Nothing),
        dirty && !has_connection ==> (step is ClearDirty),
        dirty && has_connection ==> (step is Save),
{
    if !dirty {
        PersistStep::Nothing
    } else if !has_connection {
        PersistStep::ClearDirty
    } else {
        PersistStep::Save
    }
}

/// How writing the snapshot went.
pub enum SaveOutcome {
    /// The snapshot was written.
    Saved,
    /// Writing failed (or the connection's lock was poisoned).
    Failed,
}

/// The dirty flag after this frame's step. `outcome` is how the write went;
/// it is read only where the step was `Save`. The flag stays set only when
/// a write was due and failed, so a later frame tries again.
pub fn dirty_after(dirty: bool, has_connection: bool, outcome: SaveOutcome) -> (next: bool)
    ensures
        !dirty ==> !next,
        dirty && !has_connection ==> !next,
        dirty && has_connection ==> (next <==> (outcome is Failed)),
{
    match persist_step(dirty, has_connection) {
        PersistStep::Nothing => false,
        PersistStep::ClearDirty => false,
        PersistStep::Save => match outcome {
            SaveOutcome::Saved => false,
            SaveOutcome::Failed => true,
        },
    }
}

/// The row ids, each once.
pub open spec fn distinct_row_ids(rows: Seq<StoredNode>) -> bool {
    forall|i: int, j: int| 0 <= i < j < rows.len() ==> rows[i].id != rows[j].id
}

/// The ids of the rows.
pub open spec fn row_ids(rows: Seq<StoredNode>) -> Set<u128> {
    Set::new(|u: u128| exists|i: int| 0 <= i < rows.len() && rows[i].id == u)
}

/// Applying the first restore phase's commands registers every row once:
/// starting from a registry that holds none of the (distinct) row ids, the
/// registry gains exactly those ids, so it then holds as many entries more as
/// there are rows; from an empty registry, the second phase is due.
pub proof fn lemma_restore_registers_rows(st: ApiState, cmds: Seq<ApiCommand>, rows: Seq<StoredNode>)
    requires
        commands_of_rows(cmds, rows, false),
        distinct_row_ids(rows),
        forall|i: int| 0 <= i < rows.len() ==> !st.u2n.contains_key(#[trigger] rows[i].id),
        st.u2n.dom().finite(),
        st.next + cmds.len() < u64::MAX,
    ensures
        api_run(st, cmds).0.u2n.dom() == st.u2n.dom() + row_ids(rows),
        api_run(st, cmds).0.u2n.len() == st.u2n.len() + rows.len(),
        api_run(st, cmds).0.u2n.dom().finite(),
    decreases cmds.len(),
{
    if cmds.len() == 0 {
        assert(row_ids(rows) =~= Set::<u128>::empty());
        assert(st.u2n.dom() + row_ids(rows) =~= st.u2n.dom());
    } else {
        let k = cmds.len() - 1;
        let pc = cmds.drop_last();
        let pr = rows.drop_last();
        assert forall|i: int| 0 <= i < pc.len() implies #[trigger] pc[i]@ == row_command(pr[i], false) by {
            assert(cmds[i]@ == row_command(rows[i], false));
        }
        lemma_restore_registers_rows(st, pc, pr);
        let s1 = api_run(st, pc).0;
        assert(cmds[k]@ == row_command(rows[k], false));
        let c = cmds.last();
        let u = rows[k].id;
        assert(c is CreateNode);
        assert(c->CreateNode_uuid == u);
        assert(!(row_ids(pr).contains(u))) by {
            if row_ids(pr).contains(u) {
                let i = choose|i: int| 0 <= i < pr.len() && pr[i].id == u;
                assert(rows[i].id == u);
            }
        }
        assert(!s1.u2n.contains_key(u));
        assert(row_ids(rows) =~= row_ids(pr).insert(u)) by {
            assert forall|v: u128| row_ids(rows).contains(v) implies row_ids(pr).insert(u).contains(v) by {
                let i = choose|i: int| 0 <= i < rows.len() && rows[i].id == v;
                if i < k {
                    assert(pr[i].id == v);
                }
            }
            assert forall|v: u128| row_ids(pr).contains(v) implies row_ids(rows).contains(v) by {
                let i = choose|i: int| 0 <= i < pr.len() && pr[i].id == v;
                assert(rows[i].id == v);
            }
            assert(rows[k].id == u);
        }
        assert(api_run(st, cmds).0.u2n == s1.u2n.insert(u, NodeId(s1.next)));
        assert(api_run(st, cmds).0.u2n.dom() =~= st.u2n.dom() + row_ids(rows));
    }
}

} // verus!