use graphico::api::state::NodeUuidRegistry;
use graphico::demo::{
    demo_after_post, demo_after_tick, demo_next_action, demo_node_data, demo_node_name, demo_request_edges, demo_start,
    DemoAction, DemoReply,
};
use graphico::graph::model::{ColorBits, GraphData, NodeId, Vec2Bits};
use graphico::graph::systems::{
    process_add_edge_event, process_add_node_event, process_update_node_event, take_pending_batch, LayoutState,
    NodeFields,
};
use graphico::mcp::{build_partial_update, node_url, parse_bulk_edge_lists};
use graphico::persist::{decode_row_keys, encode_row_keys};
use graphico::render::labels::{label_step, LabelStep};
use graphico::spatial::grid::{ChunkCoord, SpatialGrid};
use graphico::ui::fix_overlaps::overlap_fix_updates;
use graphico::ui::inspector::{decimal_text, inspector_text, inspector_view, node_label, node_labels};

const A_TEXT: &str = "67e55044-10b1-426f-9247-bb680e5fe0c8";
const A: u128 = 0x67e5504410b1426f9247bb680e5fe0c8;
const B_TEXT: &str = "936da01f-9abd-4d9d-80c7-02af85c822a8";
const B: u128 = 0x936da01f9abd4d9d80c702af85c822a8;

fn fields(name: &str, data: &str, x: u32, chunk: ChunkCoord) -> NodeFields {
    NodeFields {
        position: Vec2Bits { x, y: 0 },
        chunk,
        name: name.to_string(),
        data: data.to_string(),
        color: ColorBits { red: 1, green: 2, blue: 3, alpha: 4 },
    }
}

fn grey() -> ColorBits {
    ColorBits { red: 9, green: 9, blue: 9, alpha: 9 }
}

/// Three nodes in one chunk; 0 is joined to 1 and 2.
fn small_graph() -> (GraphData, SpatialGrid) {
    let mut g = GraphData::new();
    let mut grid = SpatialGrid::new();
    let c = ChunkCoord { x: 0, y: 0 };
    for (name, data) in [("root", "top"), ("a", ""), ("b", "")] {
        let id = g.next_node_id();
        process_add_node_event(&mut g, &mut grid, id, fields(name, data, 7, c), None);
    }
    process_add_edge_event(&mut g, &mut grid, NodeId(0), NodeId(2), grey());
    process_add_edge_event(&mut g, &mut grid, NodeId(1), NodeId(0), grey());
    (g, grid)
}

#[test]
fn decimal_text_of_numbers() {
    assert_eq!(decimal_text(0), "0");
    assert_eq!(decimal_text(7), "7");
    assert_eq!(decimal_text(10), "10");
    assert_eq!(decimal_text(1234567890), "1234567890");
    assert_eq!(decimal_text(u128::MAX), u128::MAX.to_string());
}

#[test]
fn labels_use_uuid_text_or_node_number() {
    let mut r = NodeUuidRegistry::new();
    r.register(A, NodeId(3));
    assert_eq!(node_label(&r, NodeId(3)), A_TEXT);
    assert_eq!(node_label(&r, NodeId(42)), "42");
    assert_eq!(node_labels(&r, &vec![NodeId(42), NodeId(3)]), vec!["42".to_string(), A_TEXT.to_string()]);
}

#[test]
fn inspector_hidden_without_a_live_selection() {
    let (g, _) = small_graph();
    let r = NodeUuidRegistry::new();
    assert!(inspector_view(&g, &r, None, vec![]).is_none());
    assert!(inspector_view(&g, &r, Some(NodeId(9)), vec![]).is_none());
}

#[test]
fn inspector_lists_neighbours_and_overlaps_with_labels() {
    let (g, _) = small_graph();
    let mut r = NodeUuidRegistry::new();
    r.register(B, NodeId(2));
    let v = inspector_view(&g, &r, Some(NodeId(0)), vec![NodeId(2)]).unwrap();
    assert_eq!(v.label, "0");
    assert_eq!(v.name, "root");
    assert_eq!(v.neighbors, vec![NodeId(1), NodeId(2)]);
    assert_eq!(v.neighbor_labels, vec!["1".to_string(), B_TEXT.to_string()]);
    assert_eq!(v.overlap_labels, vec![B_TEXT.to_string()]);
    let text = inspector_text(&v, "#112233", "7", "-3");
    assert_eq!(text, "ID: 0\nName: root\nColor: #112233\nPos: (7, -3)\nSize: 48 x 30\nEdges: 2\n\nData:\ntop");
    let leaf = inspector_view(&g, &r, Some(NodeId(1)), vec![]).unwrap();
    assert_eq!(inspector_text(&leaf, "#000000", "0", "0"), "ID: 1\nName: a\nColor: #000000\nPos: (0, 0)\nSize: 40 x 30\nEdges: 1");
}

#[test]
fn overlap_fixes_move_nodes_and_keep_edges() {
    let (mut g, mut grid) = small_graph();
    let c1 = ChunkCoord { x: 1, y: 0 };
    let resolved = vec![(NodeId(0), Vec2Bits { x: 99, y: 98 }, c1), (NodeId(8), Vec2Bits { x: 1, y: 1 }, c1)];
    let fixes = overlap_fix_updates(&g, &resolved);
    assert_eq!(fixes.len(), 1);
    assert_eq!(fixes[0].node_id, NodeId(0));
    assert_eq!(fixes[0].fields.name, "root");
    assert_eq!(fixes[0].fields.position, Vec2Bits { x: 99, y: 98 });
    assert_eq!(fixes[0].desired, vec![NodeId(1), NodeId(2)]);
    let edges_before = g.edge_count();
    for fix in fixes {
        let missing = process_update_node_event(&mut g, &mut grid, fix.node_id, fix.fields, &fix.desired).unwrap();
        assert!(missing.is_empty());
    }
    assert_eq!(g.edge_count(), edges_before);
    assert_eq!(g.neighbor_node_ids(NodeId(0)), vec![NodeId(1), NodeId(2)]);
    assert_eq!(g.nodes.get(&0).unwrap().position, Vec2Bits { x: 99, y: 98 });
}

#[test]
fn label_steps() {
    assert!(matches!(label_step(true, true, false, false, false, 0), LabelStep::Spawn));
    assert!(matches!(label_step(true, true, false, false, false, 50), LabelStep::Stop));
    assert!(matches!(label_step(false, true, true, false, false, 3), LabelStep::Spawn));
    assert!(matches!(label_step(true, false, false, false, true, 0), LabelStep::Despawn));
    assert!(matches!(label_step(false, false, false, true, true, 0), LabelStep::Keep));
    assert!(matches!(label_step(false, true, false, false, false, 0), LabelStep::Keep));
}

#[test]
fn layout_queue_gives_at_most_a_hundred_oldest() {
    let mut st = LayoutState { pending_nodes: (0..250).map(NodeId).collect() };
    let first = take_pending_batch(&mut st);
    assert_eq!(first.len(), 100);
    assert_eq!(first[0], NodeId(0));
    assert_eq!(first[99], NodeId(99));
    assert_eq!(st.pending_nodes.len(), 150);
    assert_eq!(st.pending_nodes[0], NodeId(100));
    take_pending_batch(&mut st);
    let last = take_pending_batch(&mut st);
    assert_eq!(last, (200..250).map(NodeId).collect::<Vec<_>>());
    assert!(st.pending_nodes.is_empty());
    assert!(take_pending_batch(&mut st).is_empty());
}

#[test]
fn row_keys_encode_as_text_and_json() {
    let (id, edges) = encode_row_keys(A, &vec![B, A]);
    assert_eq!(id, A_TEXT);
    assert_eq!(edges, format!("[\"{}\",\"{}\"]", B_TEXT, A_TEXT));
    assert_eq!(encode_row_keys(B, &vec![]).1, "[]");
    let (back_id, back_edges) = decode_row_keys(&id, &edges).unwrap();
    assert_eq!(back_id, A);
    assert_eq!(back_edges, vec![B, A]);
}

#[test]
fn node_urls_carry_the_uuid() {
    assert_eq!(node_url("http://127.0.0.1:3000/", A), format!("http://127.0.0.1:3000/nodes/{}", A_TEXT));
}

#[test]
fn partial_updates_keep_given_fields_and_read_edges() {
    let u = build_partial_update(Some("n".to_string()), None, Some("#FFFFFF".to_string()), None, None).unwrap();
    assert_eq!(u.name.as_deref(), Some("n"));
    assert!(u.data.is_none() && u.edges.is_none() && u.position.is_none());
    let list = vec![format!(" {} ", B_TEXT)];
    let u = build_partial_update(None, None, None, Some(&list), Some(Vec2Bits { x: 1, y: 2 })).unwrap();
    assert_eq!(u.edges, Some(vec![B]));
    assert_eq!(u.position, Some(Vec2Bits { x: 1, y: 2 }));
    let bad = vec!["zz".to_string()];
    let err = build_partial_update(None, None, None, Some(&bad), None).err().unwrap();
    assert_eq!(err.input, "zz");
}

#[test]
fn bulk_edge_lists_fail_at_first_bad_list() {
    let lists = vec![None, Some(vec![A_TEXT.to_string()]), Some(vec![])];
    let out = parse_bulk_edge_lists(&lists).unwrap();
    assert_eq!(out, vec![None, Some(vec![A]), Some(vec![])]);
    let lists = vec![Some(vec![A_TEXT.to_string()]), Some(vec![B_TEXT.to_string(), "q".to_string()]), Some(vec!["r".to_string()])];
    assert_eq!(parse_bulk_edge_lists(&lists).err().unwrap().input, "q");
}

#[test]
fn demo_texts() {
    assert_eq!(demo_node_name(0), "N1");
    assert_eq!(demo_node_name(99), "N100");
    assert_eq!(demo_node_data(2, 5), "Depth: 2\nIndex: 5");
    let parent = vec![0, 0, 1];
    let created = vec!["id-a".to_string(), "id-b".to_string()];
    assert!(demo_request_edges(&parent, &created, 0).is_empty());
    assert_eq!(demo_request_edges(&parent, &created, 2), vec!["id-b".to_string()]);
}

#[test]
fn demo_loop_sends_in_ticks() {
    let mut st = demo_start();
    let mut trace = Vec::new();
    loop {
        match demo_next_action(&st, 5, 2) {
            DemoAction::Post { index } => {
                trace.push(format!("post{}", index));
                let reply = if index == 3 {
                    DemoReply::Failed
                } else {
                    DemoReply::Created { id: format!("id{}", index) }
                };
                demo_after_post(&mut st, reply);
            }
            DemoAction::EndTick => {
                trace.push("tick".to_string());
                demo_after_tick(&mut st);
            }
            DemoAction::Done => break,
        }
    }
    assert_eq!(trace, vec!["post0", "post1", "tick", "post2", "post3", "tick", "post4", "tick"]);
    assert_eq!(st.created, vec!["id0", "id1", "id2", "id4"]);
    assert!(matches!(demo_next_action(&demo_start(), 0, 2), DemoAction::Done));
}
