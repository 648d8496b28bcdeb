use graphico::graph::model::{ColorBits, EdgeId, GraphData, NodeId, Vec2Bits};
use graphico::graph::overlaps::{overlapping_node_count, overlapping_pairs_by_node};
use graphico::graph::systems::{process_add_edge_event, process_add_node_event, NodeFields};
use graphico::layout::engine::LayoutEngine;
use graphico::layout::placement::{collect_neighbor_positions, note_edge_count, untracked_nodes};
use graphico::render::edges::{chunk_edge_segments, EdgeSegment};
use graphico::spatial::grid::{ChunkCoord, ChunkData, SpatialGrid};
use graphico::ui::inspector::{inspector_needs_rebuild, InspectorCache};

fn node(g: &mut GraphData, grid: &mut SpatialGrid, x: u32, chunk: ChunkCoord) -> NodeId {
    let id = g.next_node_id();
    process_add_node_event(
        g,
        grid,
        id,
        NodeFields {
            position: Vec2Bits { x, y: x + 1 },
            chunk,
            name: "n".to_string(),
            data: String::new(),
            color: ColorBits { red: 0, green: 0, blue: 0, alpha: 0 },
        },
        None,
    );
    id
}

#[test]
fn chunk_keys_round_trip() {
    for &(x, y) in &[(0, 0), (-1, 5), (i32::MIN, i32::MAX), (i32::MAX, i32::MIN), (7, -7)] {
        let c = ChunkCoord { x, y };
        assert_eq!(ChunkCoord::from_key(c.key()), c);
    }
    assert_ne!(ChunkCoord { x: 1, y: 0 }.key(), ChunkCoord { x: 0, y: 1 }.key());
}

#[test]
fn grid_insert_remove_and_move() {
    let mut grid = SpatialGrid::new();
    let c0 = ChunkCoord { x: 0, y: 0 };
    let c1 = ChunkCoord { x: -1, y: 2 };
    grid.insert_node(NodeId(1), c0);
    grid.insert_node(NodeId(2), c0);
    grid.insert_node(NodeId(1), c0);
    grid.remove_node(NodeId(1), c0);
    assert_eq!(grid.cells.get(&c0.key()).unwrap().node_ids, vec![NodeId(2)]);
    grid.move_node(NodeId(2), c0, c1);
    assert!(grid.cells.get(&c0.key()).unwrap().node_ids.is_empty());
    assert_eq!(grid.cells.get(&c1.key()).unwrap().node_ids, vec![NodeId(2)]);
    grid.insert_edge(EdgeId(3), c1);
    grid.insert_cross_edge(EdgeId(4), c1);
    grid.remove_edge(EdgeId(3), c1);
    grid.remove_cross_edge(EdgeId(4), c1);
    let d = grid.cells.get(&c1.key()).unwrap();
    assert!(d.edge_ids.is_empty() && d.cross_edges.is_empty());
    // Removing from a chunk that was never made creates nothing.
    grid.remove_node(NodeId(9), ChunkCoord { x: 40, y: 40 });
    assert_eq!(grid.cells.len(), 2);
    assert_eq!(ChunkData::default().node_ids.len(), 0);
}

#[test]
fn dirty_chunks_are_taken_up_to_the_limit() {
    let mut grid = SpatialGrid::new();
    for i in 0..5 {
        grid.insert_node(NodeId(i), ChunkCoord { x: i as i32, y: 0 });
    }
    let keys = grid.dirty_chunk_keys(3);
    assert_eq!(keys.len(), 3);
    for k in &keys {
        grid.mark_rebuilt(*k, Some(7));
    }
    let rest = grid.dirty_chunk_keys(10);
    assert_eq!(rest.len(), 2);
    for k in &keys {
        let c = grid.cells.get(k).unwrap();
        assert!(!c.dirty);
        assert_eq!(c.entity, Some(7));
    }
    // A chunk keeps the entity it has.
    grid.mark_rebuilt(keys[0], Some(9));
    assert_eq!(grid.cells.get(&keys[0]).unwrap().entity, Some(7));
}

#[test]
fn segments_cover_inner_then_crossing_edges() {
    let mut g = GraphData::new();
    let mut grid = SpatialGrid::new();
    let c0 = ChunkCoord { x: 0, y: 0 };
    let a = node(&mut g, &mut grid, 10, c0);
    let b = node(&mut g, &mut grid, 20, c0);
    let c = node(&mut g, &mut grid, 30, ChunkCoord { x: 1, y: 0 });
    let red = ColorBits { red: 1, green: 0, blue: 0, alpha: 1 };
    process_add_edge_event(&mut g, &mut grid, c, a, red);
    process_add_edge_event(&mut g, &mut grid, a, b, red);
    let segs = chunk_edge_segments(grid.cells.get(&c0.key()).unwrap(), &g);
    assert_eq!(
        segs,
        vec![
            EdgeSegment { from: Vec2Bits { x: 10, y: 11 }, to: Vec2Bits { x: 20, y: 21 }, color: red },
            EdgeSegment { from: Vec2Bits { x: 30, y: 31 }, to: Vec2Bits { x: 10, y: 11 }, color: red },
        ]
    );
}

#[test]
fn engine_tracks_registered_nodes() {
    let mut e = LayoutEngine::default();
    assert_eq!(e.global_speed, 1.0f32.to_bits());
    e.is_converged = true;
    e.register_node(NodeId(3));
    assert!(e.knows_node(NodeId(3)));
    assert!(!e.is_converged);
    e.velocities.insert(3, Vec2Bits { x: 5, y: 5 });
    e.register_node(NodeId(3));
    assert_eq!(e.velocities.get(&3), Some(&Vec2Bits { x: 5, y: 5 }));
    e.ensure_force_entries();
    assert_eq!(e.forces.get(&3), Some(&Vec2Bits { x: 0, y: 0 }));
    e.forces.insert(3, Vec2Bits { x: 8, y: 9 });
    e.clear_forces();
    assert_eq!(e.forces.get(&3), Some(&Vec2Bits { x: 0, y: 0 }));
    e.remove_node(NodeId(3));
    assert!(!e.knows_node(NodeId(3)));
    assert!(e.forces.is_empty());
}

#[test]
fn placement_inputs() {
    let mut g = GraphData::new();
    let mut grid = SpatialGrid::new();
    let c0 = ChunkCoord { x: 0, y: 0 };
    let a = node(&mut g, &mut grid, 1, c0);
    let b = node(&mut g, &mut grid, 2, c0);
    let c = node(&mut g, &mut grid, 3, c0);
    let col = ColorBits { red: 0, green: 0, blue: 0, alpha: 0 };
    process_add_edge_event(&mut g, &mut grid, a, b, col);
    process_add_edge_event(&mut g, &mut grid, c, a, col);
    let mut e = LayoutEngine::default();
    e.register_node(b);
    let mut fresh = untracked_nodes(&g, &e);
    fresh.sort_by_key(|n| n.0);
    assert_eq!(fresh, vec![a, c]);
    assert!(note_edge_count(&mut e, g.edge_count()));
    assert!(!note_edge_count(&mut e, g.edge_count()));
    assert_eq!(
        collect_neighbor_positions(a, &g),
        vec![Vec2Bits { x: 2, y: 3 }, Vec2Bits { x: 3, y: 4 }]
    );
}

#[test]
fn overlap_pairs_give_count_and_symmetric_lists() {
    let pairs = vec![(NodeId(5), NodeId(1)), (NodeId(1), NodeId(3)), (NodeId(7), NodeId(5))];
    assert_eq!(overlapping_node_count(&pairs), 4);
    let by = overlapping_pairs_by_node(&pairs);
    assert_eq!(by.get(&1).unwrap(), &vec![NodeId(3), NodeId(5)]);
    assert_eq!(by.get(&5).unwrap(), &vec![NodeId(1), NodeId(7)]);
    assert_eq!(by.get(&3).unwrap(), &vec![NodeId(1)]);
    assert_eq!(by.get(&7).unwrap(), &vec![NodeId(5)]);
    assert_eq!(by.len(), 4);
    assert_eq!(overlapping_node_count(&vec![]), 0);
}

#[test]
fn inspector_rebuilds_only_on_change() {
    let ids = vec![NodeId(1), NodeId(2)];
    assert!(inspector_needs_rebuild(&None, NodeId(1), &ids, &ids));
    let cache = Some(InspectorCache { node_id: NodeId(1), overlaps: ids.clone(), neighbors: vec![] });
    assert!(!inspector_needs_rebuild(&cache, NodeId(1), &ids, &vec![]));
    assert!(inspector_needs_rebuild(&cache, NodeId(2), &ids, &vec![]));
    assert!(inspector_needs_rebuild(&cache, NodeId(1), &vec![NodeId(1)], &vec![]));
    assert!(inspector_needs_rebuild(&cache, NodeId(1), &ids, &vec![NodeId(4)]));
}

#[test]
fn overlap_count_is_never_one_and_matches_the_lists() {
    let one_pair = vec![(NodeId(2), NodeId(9))];
    assert_eq!(overlapping_node_count(&one_pair), 2);
    let by = overlapping_pairs_by_node(&one_pair);
    assert_eq!(by.len(), 2);
    assert_eq!(by.get(&2).unwrap(), &vec![NodeId(9)]);
    assert_eq!(by.get(&9).unwrap(), &vec![NodeId(2)]);
    let both_ways = vec![(NodeId(4), NodeId(6)), (NodeId(6), NodeId(4)), (NodeId(4), NodeId(8))];
    assert_eq!(overlapping_node_count(&both_ways), 3);
    let by = overlapping_pairs_by_node(&both_ways);
    assert_eq!(by.len(), 3);
    for (k, list) in by.iter() {
        assert!(!list.contains(&NodeId(*k)));
    }
    assert_eq!(by.get(&4).unwrap(), &vec![NodeId(6), NodeId(8)]);
}

#[test]
fn overlapping_nodes_come_two_at_a_time() {
    assert_eq!(overlapping_node_count(&vec![(NodeId(3), NodeId(8))]), 2);
    let chain = vec![(NodeId(1), NodeId(2)), (NodeId(2), NodeId(3)), (NodeId(3), NodeId(1))];
    // Three nodes, all overlapping: never more than the nodes in the pairs.
    assert_eq!(overlapping_node_count(&chain), 3);
    assert_eq!(overlapping_pairs_by_node(&chain).len(), 3);
}
