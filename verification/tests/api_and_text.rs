use graphico::api::commands::{create_node_command, create_node_request, handle_api_command, ApiCommand, GraphEvent};
use graphico::api::snapshot::{build_api_snapshot, neighbor_uuids};
use graphico::api::state::{color_to_hex, parse_hex_color, NodeUuidRegistry};
use graphico::graph::model::{ColorBits, GraphData, NodeId, Vec2Bits};
use graphico::graph::systems::{process_add_edge_event, process_add_node_event, NodeFields};
use graphico::render::nodes::estimate_text_size;
use graphico::spatial::grid::{ChunkCoord, SpatialGrid};

const U1: u128 = 0x11;
const U2: u128 = 0x22;
const U3: u128 = 0x33;

fn origin() -> Vec2Bits {
    Vec2Bits { x: 0, y: 0 }
}

fn create(uuid: u128, edges: Vec<u128>) -> ApiCommand {
    ApiCommand::CreateNode {
        uuid,
        name: format!("n{}", uuid),
        data: String::new(),
        color: None,
        edges,
        position: origin(),
    }
}

#[test]
fn hex_colours_parse_with_or_without_hash() {
    assert_eq!(parse_hex_color("#FF0000"), Some([255, 0, 0]));
    assert_eq!(parse_hex_color("00ff7f"), Some([0, 255, 127]));
    assert_eq!(parse_hex_color("#aBcDeF"), Some([0xab, 0xcd, 0xef]));
    // `from_str_radix` takes a leading plus sign in each two-digit channel.
    assert_eq!(parse_hex_color("+F+F+F"), Some([15, 15, 15]));
}

#[test]
fn malformed_hex_colours_are_refused() {
    assert_eq!(parse_hex_color(""), None);
    assert_eq!(parse_hex_color("#"), None);
    assert_eq!(parse_hex_color("#FFF"), None);
    assert_eq!(parse_hex_color("#FF00000"), None);
    assert_eq!(parse_hex_color("#GG0000"), None);
    assert_eq!(parse_hex_color("##FF000"), None);
    assert_eq!(parse_hex_color("#-F0000"), None);
}

#[test]
fn colours_print_as_upper_case_hex() {
    assert_eq!(color_to_hex([255, 0, 16]), "#FF0010");
    assert_eq!(color_to_hex([0, 0, 0]), "#000000");
    assert_eq!(color_to_hex([0xab, 0x0c, 0x9f]), "#AB0C9F");
}

#[test]
fn colour_text_round_trips() {
    for c in [[0u8, 0, 0], [255, 255, 255], [1, 128, 254], [0x3c, 0xa0, 0x0f]] {
        assert_eq!(parse_hex_color(&color_to_hex(c)), Some(c));
    }
}

#[test]
fn text_size_of_empty_and_short_texts() {
    let e = estimate_text_size("");
    assert_eq!((e.width, e.height), (40, 24));
    let s = estimate_text_size("N1");
    assert_eq!((s.width, s.height), (40, 30));
    let nl = estimate_text_size("\n");
    assert_eq!((nl.width, nl.height), (40, 30));
}

#[test]
fn text_size_uses_longest_line_and_line_count() {
    // 10 bytes: 10 * 7 + 20 wide; one line: 16 + 14 high.
    let one = estimate_text_size("abcdefghij");
    assert_eq!((one.width, one.height), (90, 30));
    // Longest line 6 bytes, three lines: 6 * 7 + 20 by 3 * 16 + 14.
    let three = estimate_text_size("ab\r\nabcdef\nx\n");
    assert_eq!((three.width, three.height), (62, 62));
    // A carriage return not followed by a newline stays in the line.
    let cr = estimate_text_size("abc\r");
    assert_eq!((cr.width, cr.height), (48, 30));
}

#[test]
fn registry_maps_both_ways() {
    let mut r = NodeUuidRegistry::new();
    r.register(U1, NodeId(4));
    r.register(U2, NodeId(5));
    assert_eq!(r.len(), 2);
    assert_eq!(r.node_of(U1), Some(NodeId(4)));
    assert_eq!(r.uuid_of(NodeId(5)), Some(U2));
    assert_eq!(r.remove_by_uuid(U1), Some(NodeId(4)));
    assert_eq!(r.uuid_of(NodeId(4)), None);
    assert_eq!(r.remove_by_node_id(NodeId(5)), Some(U2));
    assert_eq!(r.node_of(U2), None);
    assert_eq!(r.remove_by_uuid(U3), None);
    assert_eq!(r.len(), 0);
}

#[test]
fn create_allocates_ids_and_links_registered_neighbours() {
    let mut r = NodeUuidRegistry::new();
    let mut g = GraphData::new();
    let ev = handle_api_command(&mut r, &mut g, create(U1, vec![]));
    assert_eq!(ev.len(), 1);
    assert!(matches!(ev[0], GraphEvent::AddNode { id: NodeId(0), .. }));
    // U3 is not registered and is skipped; U2 lists itself.
    let ev = handle_api_command(&mut r, &mut g, create(U2, vec![U1, U3, U2]));
    assert_eq!(ev.len(), 3);
    assert!(matches!(ev[0], GraphEvent::AddNode { id: NodeId(1), .. }));
    assert!(matches!(ev[1], GraphEvent::AddEdge { source: NodeId(1), target: NodeId(0) }));
    assert!(matches!(ev[2], GraphEvent::AddEdge { source: NodeId(1), target: NodeId(1) }));
    assert_eq!(r.node_of(U2), Some(NodeId(1)));
    assert_eq!(g.next_node_id, 2);
}

#[test]
fn update_and_delete_of_unknown_uuid_do_nothing() {
    let mut r = NodeUuidRegistry::new();
    let mut g = GraphData::new();
    let upd = ApiCommand::UpdateNode {
        uuid: U1,
        name: "x".to_string(),
        data: String::new(),
        color: None,
        edges: vec![],
        position: origin(),
    };
    assert!(handle_api_command(&mut r, &mut g, upd).is_empty());
    assert!(handle_api_command(&mut r, &mut g, ApiCommand::DeleteNode { uuid: U1 }).is_empty());
    assert_eq!(r.len(), 0);
}

#[test]
fn update_lists_registered_neighbours_and_delete_unregisters() {
    let mut r = NodeUuidRegistry::new();
    let mut g = GraphData::new();
    handle_api_command(&mut r, &mut g, create(U1, vec![]));
    handle_api_command(&mut r, &mut g, create(U2, vec![]));
    let upd = ApiCommand::UpdateNode {
        uuid: U2,
        name: "y".to_string(),
        data: "d".to_string(),
        color: Some([1, 2, 3]),
        edges: vec![U3, U1],
        position: origin(),
    };
    let ev = handle_api_command(&mut r, &mut g, upd);
    assert_eq!(ev.len(), 1);
    match &ev[0] {
        GraphEvent::UpdateNode { id, name, color, desired_neighbor_ids, .. } => {
            assert_eq!(*id, NodeId(1));
            assert_eq!(name, "y");
            assert_eq!(*color, Some([1, 2, 3]));
            assert_eq!(desired_neighbor_ids, &vec![NodeId(0)]);
        }
        _ => panic!("expected an update"),
    }
    let ev = handle_api_command(&mut r, &mut g, ApiCommand::DeleteNode { uuid: U1 });
    assert!(matches!(ev[..], [GraphEvent::DeleteNode { id: NodeId(0) }]));
    assert_eq!(r.node_of(U1), None);
    assert_eq!(r.uuid_of(NodeId(0)), None);
}

#[test]
fn create_then_delete_restores_registry() {
    let mut r = NodeUuidRegistry::new();
    let mut g = GraphData::new();
    handle_api_command(&mut r, &mut g, create(U1, vec![]));
    handle_api_command(&mut r, &mut g, create(U2, vec![U1]));
    handle_api_command(&mut r, &mut g, ApiCommand::DeleteNode { uuid: U2 });
    assert_eq!(r.len(), 1);
    assert_eq!(r.node_of(U1), Some(NodeId(0)));
    assert_eq!(r.uuid_of(NodeId(1)), None);
}

#[test]
fn create_command_parses_colour_and_defaults_edges() {
    let cmd = create_node_command(U1, "a".to_string(), "b".to_string(), Some("#00FF00"), None, origin());
    match cmd {
        ApiCommand::CreateNode { uuid, color, edges, .. } => {
            assert_eq!(uuid, U1);
            assert_eq!(color, Some([0, 255, 0]));
            assert!(edges.is_empty());
        }
        _ => panic!("expected a create"),
    }
    let cmd = create_node_command(U1, "a".to_string(), "b".to_string(), Some("green"), Some(vec![U2]), origin());
    match cmd {
        ApiCommand::CreateNode { color, edges, .. } => {
            assert_eq!(color, None);
            assert_eq!(edges, vec![U2]);
        }
        _ => panic!("expected a create"),
    }
}

fn fields(name: &str) -> NodeFields {
    NodeFields {
        position: origin(),
        chunk: ChunkCoord { x: 0, y: 0 },
        name: name.to_string(),
        data: String::new(),
        color: black(),
    }
}

fn black() -> ColorBits {
    ColorBits { red: 0, green: 0, blue: 0, alpha: 0 }
}

#[test]
fn snapshot_lists_each_node_with_neighbour_uuids() {
    let mut r = NodeUuidRegistry::new();
    let mut g = GraphData::new();
    let mut grid = SpatialGrid::new();
    for u in [U1, U2, U3] {
        let ev = handle_api_command(&mut r, &mut g, create(u, vec![]));
        if let GraphEvent::AddNode { id, name, .. } = &ev[0] {
            process_add_node_event(&mut g, &mut grid, *id, fields(name), None);
        }
    }
    process_add_edge_event(&mut g, &mut grid, NodeId(0), NodeId(1), black());
    process_add_edge_event(&mut g, &mut grid, NodeId(2), NodeId(0), black());
    // A second edge to the same neighbour lists it once.
    process_add_edge_event(&mut g, &mut grid, NodeId(1), NodeId(0), black());
    assert_eq!(neighbor_uuids(&g, &r, NodeId(0)), vec![U2, U3]);
    assert_eq!(neighbor_uuids(&g, &r, NodeId(1)), vec![U1]);
    let mut rows = build_api_snapshot(&g, &r, &vec![]);
    rows.sort_by_key(|row| row.uuid);
    assert_eq!(rows.len(), 3);
    assert_eq!((rows[0].uuid, rows[0].node_id), (U1, NodeId(0)));
    assert_eq!(rows[0].name, "n17");
    assert_eq!((rows[0].size.width, rows[0].size.height), (41, 30));
    assert_eq!(rows[2].neighbors, vec![U1]);
    assert!(rows.iter().all(|row| row.overlaps.is_empty()));
}

#[test]
fn snapshot_overlap_lists_are_sorted_and_symmetric() {
    let mut r = NodeUuidRegistry::new();
    let mut g = GraphData::new();
    let mut grid = SpatialGrid::new();
    for u in [U1, U2, U3] {
        let ev = handle_api_command(&mut r, &mut g, create(u, vec![]));
        if let GraphEvent::AddNode { id, name, .. } = &ev[0] {
            process_add_node_event(&mut g, &mut grid, *id, fields(name), None);
        }
    }
    let mut rows = build_api_snapshot(&g, &r, &vec![(U3, U1), (U1, U2)]);
    rows.sort_by_key(|row| row.uuid);
    assert_eq!(rows[0].overlaps, vec![U2, U3]);
    assert_eq!(rows[1].overlaps, vec![U1]);
    assert_eq!(rows[2].overlaps, vec![U1]);
}

#[test]
fn fresh_create_requests_get_version_four_uuids() {
    let (a, cmd) = create_node_request("x".to_string(), String::new(), Some("#010203"), None, origin());
    let (b, _) = create_node_request("y".to_string(), String::new(), None, Some(vec![a]), origin());
    assert_ne!(a, b);
    for u in [a, b] {
        assert_eq!((u >> 76) & 0xF, 4);
        assert_eq!((u >> 62) & 0x3, 2);
    }
    match cmd {
        ApiCommand::CreateNode { uuid, color, .. } => {
            assert_eq!(uuid, a);
            assert_eq!(color, Some([1, 2, 3]));
        }
        _ => panic!("expected a create"),
    }
}

#[test]
fn snapshot_skips_uuids_without_a_node() {
    let mut r = NodeUuidRegistry::new();
    let g = GraphData::new();
    r.register(U1, NodeId(9));
    assert!(build_api_snapshot(&g, &r, &vec![(U1, U2)]).is_empty());
}

#[test]
fn parsed_colour_prints_back_as_upper_case_digits() {
    for text in ["#a1B2c3", "00ff7f", "#09afAF", "fFfFfF"] {
        let c = parse_hex_color(text).unwrap();
        let digits = text.trim_start_matches('#');
        assert_eq!(color_to_hex(c), format!("#{}", digits.to_uppercase()));
    }
}
