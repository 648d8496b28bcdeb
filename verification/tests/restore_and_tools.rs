use graphico::api::commands::{apply_api_commands, handle_api_command, ApiCommand, GraphEvent};
use graphico::api::state::NodeUuidRegistry;
use graphico::demo::{depth_levels, depths_from_parents, random_tree_parents};
use graphico::graph::model::{GraphData, NodeId, Vec2Bits};
use graphico::mcp::{api_url, parse_uuid, parse_uuid_list_opt, status_is_success, tool_result_text, trim_whitespace};
use graphico::persist::{
    decode_row_keys, dirty_after, inject_load_creates, inject_load_edges, persist_step, PendingGraphLoad, PersistStep,
    SaveOutcome, StoredNode,
};

const A_TEXT: &str = "67e55044-10b1-426f-9247-bb680e5fe0c8";
const A: u128 = 0x67e5504410b1426f9247bb680e5fe0c8;
const B_TEXT: &str = "936da01f-9abd-4d9d-80c7-02af85c822a8";
const B: u128 = 0x936da01f9abd4d9d80c702af85c822a8;

fn row(id: u128, name: &str, color: &str, edges: Vec<u128>, x: u32) -> StoredNode {
    StoredNode {
        id,
        name: name.to_string(),
        data: String::new(),
        color: color.to_string(),
        edges,
        position: Vec2Bits { x, y: x + 1 },
        size: Vec2Bits { x: 0, y: 0 },
    }
}

#[test]
fn row_keys_decode_through_the_uuid_crate() {
    let json = format!("[\"{}\"]", B_TEXT);
    let (id, edges) = decode_row_keys(A_TEXT, &json).unwrap();
    assert_eq!(id, A);
    assert_eq!(edges, vec![B]);
    // Other spellings that the crate reads.
    let (id, _) = decode_row_keys("67e5504410b1426f9247bb680e5fe0c8", "[]").unwrap();
    assert_eq!(id, A);
    let (id, _) = decode_row_keys("{67e55044-10b1-426f-9247-bb680e5fe0c8}", "[]").unwrap();
    assert_eq!(id, A);
}

#[test]
fn unreadable_edges_count_as_none_and_bad_ids_fail() {
    let (id, edges) = decode_row_keys(B_TEXT, "not json").unwrap();
    assert_eq!(id, B);
    assert!(edges.is_empty());
    let (_, edges) = decode_row_keys(B_TEXT, "[\"not-a-uuid\"]").unwrap();
    assert!(edges.is_empty());
    assert!(decode_row_keys("not-a-uuid", "[]").is_err());
    assert!(decode_row_keys("", "[]").is_err());
}

#[test]
fn load_starts_idle_without_rows() {
    assert!(matches!(PendingGraphLoad::from_rows(vec![]), PendingGraphLoad::Idle));
    let mut idle = PendingGraphLoad::Idle;
    assert!(inject_load_creates(&mut idle).is_empty());
    assert!(inject_load_edges(&mut idle, 0).is_empty());
    assert!(matches!(idle, PendingGraphLoad::Idle));
}

#[test]
fn load_creates_nodes_then_waits_for_registry_then_connects() {
    let rows = vec![row(A, "a", "#FF0000", vec![B], 10), row(B, "b", "#00FF00", vec![A], 30)];
    let mut pending = PendingGraphLoad::from_rows(rows);
    let creates = inject_load_creates(&mut pending);
    assert_eq!(creates.len(), 2);
    match &creates[0] {
        ApiCommand::CreateNode { uuid, name, color, edges, position, .. } => {
            assert_eq!(*uuid, A);
            assert_eq!(name, "a");
            assert_eq!(*color, Some([255, 0, 0]));
            assert!(edges.is_empty());
            assert_eq!(*position, Vec2Bits { x: 10, y: 11 });
        }
        _ => panic!("expected a create"),
    }
    assert!(matches!(pending, PendingGraphLoad::PendingEdges { .. }));
    // A second call sends nothing more.
    assert!(inject_load_creates(&mut pending).is_empty());
    // Until both nodes are registered, no edges are sent.
    assert!(inject_load_edges(&mut pending, 1).is_empty());
    assert!(matches!(pending, PendingGraphLoad::PendingEdges { .. }));
    let updates = inject_load_edges(&mut pending, 2);
    assert_eq!(updates.len(), 2);
    match &updates[1] {
        ApiCommand::UpdateNode { uuid, color, edges, .. } => {
            assert_eq!(*uuid, B);
            assert_eq!(*color, Some([0, 255, 0]));
            assert_eq!(edges, &vec![A]);
        }
        _ => panic!("expected an update"),
    }
    assert!(matches!(pending, PendingGraphLoad::Idle));
}

#[test]
fn restored_commands_rebuild_registry_and_edges() {
    let rows = vec![row(A, "a", "#FF0000", vec![B], 10), row(B, "b", "zz", vec![A], 30)];
    let mut pending = PendingGraphLoad::from_rows(rows);
    let mut reg = NodeUuidRegistry::new();
    let mut graph = GraphData::new();
    for cmd in inject_load_creates(&mut pending) {
        handle_api_command(&mut reg, &mut graph, cmd);
    }
    assert_eq!(reg.node_of(A), Some(NodeId(0)));
    assert_eq!(reg.node_of(B), Some(NodeId(1)));
    let mut desired = Vec::new();
    for cmd in inject_load_edges(&mut pending, reg.len()) {
        for ev in handle_api_command(&mut reg, &mut graph, cmd) {
            if let GraphEvent::UpdateNode { id, color, desired_neighbor_ids, .. } = ev {
                desired.push((id, color, desired_neighbor_ids));
            }
        }
    }
    assert_eq!(desired.len(), 2);
    assert_eq!(desired[0], (NodeId(0), Some([255, 0, 0]), vec![NodeId(1)]));
    assert_eq!(desired[1], (NodeId(1), None, vec![NodeId(0)]));
}

#[test]
fn a_batch_of_commands_runs_in_order() {
    let rows = vec![row(A, "a", "#FF0000", vec![B], 10), row(B, "b", "#0000FF", vec![A], 30)];
    let mut pending = PendingGraphLoad::from_rows(rows);
    let mut reg = NodeUuidRegistry::new();
    let mut graph = GraphData::new();
    let events = apply_api_commands(&mut reg, &mut graph, inject_load_creates(&mut pending));
    assert_eq!(events.len(), 2);
    assert!(matches!(events[1], GraphEvent::AddNode { id: NodeId(1), .. }));
    // Both rows are registered, so the edge phase is due.
    assert_eq!(reg.len(), 2);
    let mut cmds = inject_load_edges(&mut pending, reg.len());
    cmds.push(ApiCommand::DeleteNode { uuid: A });
    let events = apply_api_commands(&mut reg, &mut graph, cmds);
    assert_eq!(events.len(), 3);
    assert!(matches!(events[2], GraphEvent::DeleteNode { id: NodeId(0) }));
    assert_eq!(reg.len(), 1);
    assert_eq!(graph.next_node_id, 2);
}

#[test]
fn snapshot_writer_steps() {
    assert!(matches!(persist_step(false, true), PersistStep::Nothing));
    assert!(matches!(persist_step(false, false), PersistStep::Nothing));
    assert!(matches!(persist_step(true, false), PersistStep::ClearDirty));
    assert!(matches!(persist_step(true, true), PersistStep::Save));
}

#[test]
fn random_tree_parents_point_backwards() {
    let mut rng = rand::rng();
    for n in [0usize, 1, 2, 50] {
        let parent = random_tree_parents(&mut rng, n);
        assert_eq!(parent.len(), n);
        if n > 0 {
            assert_eq!(parent[0], 0);
        }
        for (i, &p) in parent.iter().enumerate().skip(1) {
            assert!(p < i);
        }
        // Each node lies one level below its parent.
        let depth = depths_from_parents(&parent);
        for i in 1..n {
            assert_eq!(depth[i], depth[parent[i]] + 1);
        }
    }
}

#[test]
fn depths_and_levels_of_a_fixed_tree() {
    let parent = vec![0, 0, 1, 1, 2];
    let depth = depths_from_parents(&parent);
    assert_eq!(depth, vec![0, 1, 2, 2, 3]);
    let levels = depth_levels(&depth);
    assert_eq!(levels, vec![vec![0], vec![1], vec![2, 3], vec![4]]);
    assert_eq!(depth_levels(&vec![]), vec![Vec::<usize>::new()]);
}

#[test]
fn whitespace_is_trimmed_on_both_sides() {
    assert_eq!(trim_whitespace("  a b \n"), "a b");
    assert_eq!(trim_whitespace("\u{3000}x\u{A0}"), "x");
    assert_eq!(trim_whitespace(" \t "), "");
    assert_eq!(trim_whitespace(""), "");
}

#[test]
fn uuid_arguments_parse_after_trimming() {
    assert_eq!(parse_uuid(&format!("  {} ", A_TEXT)).unwrap(), A);
    let err = parse_uuid("nope").unwrap_err();
    assert_eq!(err.input, "nope");
}

#[test]
fn uuid_lists_fail_at_first_bad_entry() {
    assert!(matches!(parse_uuid_list_opt(None), Ok(None)));
    let good = vec![A_TEXT.to_string(), B_TEXT.to_string()];
    assert_eq!(parse_uuid_list_opt(Some(&good)).unwrap(), Some(vec![A, B]));
    let bad = vec![A_TEXT.to_string(), "x".to_string(), "y".to_string()];
    assert_eq!(parse_uuid_list_opt(Some(&bad)).unwrap_err().input, "x");
    assert_eq!(parse_uuid_list_opt(Some(&vec![])).unwrap(), Some(vec![]));
}

#[test]
fn urls_and_tool_text() {
    assert_eq!(api_url("http://h:3000//", "/nodes"), "http://h:3000/nodes");
    assert_eq!(api_url("http://h:3000", "/graph"), "http://h:3000/graph");
    assert_eq!(api_url("", "/x"), "/x");
    assert!(status_is_success(200) && status_is_success(204) && status_is_success(299));
    assert!(!status_is_success(199) && !status_is_success(300) && !status_is_success(404));
    assert_eq!(tool_result_text("200 OK", ""), "HTTP 200 OK");
    assert_eq!(tool_result_text("404 Not Found", "missing"), "HTTP 404 Not Found\nmissing");
}

#[test]
fn dirty_flag_clears_unless_a_due_write_failed() {
    assert!(!dirty_after(false, true, SaveOutcome::Failed));
    assert!(!dirty_after(false, false, SaveOutcome::Failed));
    assert!(!dirty_after(true, false, SaveOutcome::Failed));
    assert!(!dirty_after(true, true, SaveOutcome::Saved));
    assert!(dirty_after(true, true, SaveOutcome::Failed));
}
