use graphico::graph::model::{ColorBits, EdgeId, GraphData, NodeId, Vec2Bits};
use graphico::graph::systems::{
    process_add_edge_event, process_add_node_event, process_delete_node_event,
    process_update_node_event, remove_single_edge, resolve_node_id, sync_node_chunk, NodeFields,
};
use graphico::spatial::grid::{ChunkCoord, SpatialGrid};

fn grey() -> ColorBits {
    ColorBits { red: 1, green: 2, blue: 3, alpha: 4 }
}

fn fields(name: &str, x: i32, y: i32) -> NodeFields {
    NodeFields {
        position: Vec2Bits { x: 0, y: 0 },
        chunk: ChunkCoord { x, y },
        name: name.to_string(),
        data: String::new(),
        color: grey(),
    }
}

fn add(graph: &mut GraphData, grid: &mut SpatialGrid, name: &str, x: i32, y: i32) -> NodeId {
    let id = resolve_node_id(graph, None);
    process_add_node_event(graph, grid, id, fields(name, x, y), Some(100 + id.0));
    id
}

fn cell_nodes(grid: &SpatialGrid, c: ChunkCoord) -> Vec<NodeId> {
    grid.cells.get(&c.key()).map(|d| d.node_ids.clone()).unwrap_or_default()
}

#[test]
fn ids_count_up_from_zero() {
    let mut g = GraphData::new();
    assert_eq!(g.next_node_id(), NodeId(0));
    assert_eq!(g.next_node_id(), NodeId(1));
    assert_eq!(g.next_edge_id(), EdgeId(0));
    assert_eq!(g.next_node_id, 2);
}

#[test]
fn pre_allocated_id_is_used_and_counter_kept() {
    let mut g = GraphData::new();
    assert_eq!(resolve_node_id(&mut g, Some(NodeId(42))), NodeId(42));
    assert_eq!(resolve_node_id(&mut g, None), NodeId(0));
}

#[test]
fn added_node_is_stored_sized_and_filed() {
    let mut g = GraphData::new();
    let mut grid = SpatialGrid::new();
    let a = add(&mut g, &mut grid, "N1", 0, 0);
    assert_eq!(g.node_count(), 1);
    let d = g.nodes.get(&a.0).unwrap();
    assert_eq!(d.size.width, 40);
    assert_eq!(d.size.height, 30);
    assert_eq!(d.entity, Some(100));
    assert_eq!(cell_nodes(&grid, ChunkCoord { x: 0, y: 0 }), vec![a]);
    assert!(grid.cells.get(&ChunkCoord { x: 0, y: 0 }.key()).unwrap().dirty);
}

#[test]
fn edge_needs_both_ends() {
    let mut g = GraphData::new();
    let mut grid = SpatialGrid::new();
    let a = add(&mut g, &mut grid, "a", 0, 0);
    assert_eq!(process_add_edge_event(&mut g, &mut grid, a, NodeId(77), grey()), None);
    assert_eq!(g.edge_count(), 0);
}

#[test]
fn edge_in_one_chunk_is_inner_else_crossing() {
    let mut g = GraphData::new();
    let mut grid = SpatialGrid::new();
    let a = add(&mut g, &mut grid, "a", 0, 0);
    let b = add(&mut g, &mut grid, "b", 0, 0);
    let c = add(&mut g, &mut grid, "c", 1, -1);
    let ab = process_add_edge_event(&mut g, &mut grid, a, b, grey()).unwrap();
    let ac = process_add_edge_event(&mut g, &mut grid, a, c, grey()).unwrap();
    assert_eq!(ab, EdgeId(0));
    assert_eq!(ac, EdgeId(1));
    let c00 = grid.cells.get(&ChunkCoord { x: 0, y: 0 }.key()).unwrap();
    assert_eq!(c00.edge_ids, vec![ab]);
    assert_eq!(c00.cross_edges, vec![ac]);
    let c1 = grid.cells.get(&ChunkCoord { x: 1, y: -1 }.key()).unwrap();
    assert_eq!(c1.cross_edges, vec![ac]);
    assert_eq!(g.adjacency.get(&a.0).unwrap(), &vec![ab, ac]);
}

#[test]
fn neighbors_are_sorted_and_deduplicated() {
    let mut g = GraphData::new();
    let mut grid = SpatialGrid::new();
    let a = add(&mut g, &mut grid, "a", 0, 0);
    let b = add(&mut g, &mut grid, "b", 0, 0);
    let c = add(&mut g, &mut grid, "c", 0, 0);
    process_add_edge_event(&mut g, &mut grid, a, c, grey());
    process_add_edge_event(&mut g, &mut grid, b, a, grey());
    process_add_edge_event(&mut g, &mut grid, a, c, grey());
    assert_eq!(g.neighbor_node_ids(a), vec![b, c]);
    assert_eq!(g.neighbor_node_ids(c), vec![a]);
    assert_eq!(g.neighbor_node_ids(NodeId(99)), vec![]);
}

#[test]
fn removing_an_edge_clears_lists_and_grid() {
    let mut g = GraphData::new();
    let mut grid = SpatialGrid::new();
    let a = add(&mut g, &mut grid, "a", 0, 0);
    let b = add(&mut g, &mut grid, "b", 2, 0);
    let e = process_add_edge_event(&mut g, &mut grid, a, b, grey()).unwrap();
    remove_single_edge(&mut g, &mut grid, e);
    assert_eq!(g.edge_count(), 0);
    assert!(g.adjacency.get(&a.0).unwrap().is_empty());
    assert!(g.adjacency.get(&b.0).unwrap().is_empty());
    assert!(grid.cells.get(&ChunkCoord { x: 2, y: 0 }.key()).unwrap().cross_edges.is_empty());
    // Removing it again changes nothing.
    remove_single_edge(&mut g, &mut grid, e);
    assert_eq!(g.node_count(), 2);
}

#[test]
fn deleting_a_node_removes_its_edges_everywhere() {
    let mut g = GraphData::new();
    let mut grid = SpatialGrid::new();
    let a = add(&mut g, &mut grid, "a", 0, 0);
    let b = add(&mut g, &mut grid, "b", 0, 0);
    let c = add(&mut g, &mut grid, "c", 3, 3);
    process_add_edge_event(&mut g, &mut grid, a, b, grey());
    process_add_edge_event(&mut g, &mut grid, c, a, grey());
    process_add_edge_event(&mut g, &mut grid, a, a, grey());
    let removed = process_delete_node_event(&mut g, &mut grid, a).unwrap();
    assert_eq!(removed.entity, Some(100));
    assert_eq!(g.node_count(), 2);
    assert_eq!(g.edge_count(), 0);
    assert!(g.neighbor_node_ids(b).is_empty());
    assert!(g.neighbor_node_ids(c).is_empty());
    assert!(!g.adjacency.contains_key(&a.0));
    assert_eq!(cell_nodes(&grid, ChunkCoord { x: 0, y: 0 }), vec![b]);
    let c00 = grid.cells.get(&ChunkCoord { x: 0, y: 0 }.key()).unwrap();
    assert!(c00.edge_ids.is_empty() && c00.cross_edges.is_empty());
    assert!(process_delete_node_event(&mut g, &mut grid, a).is_none());
}

#[test]
fn update_rewires_to_desired_neighbors() {
    let mut g = GraphData::new();
    let mut grid = SpatialGrid::new();
    let a = add(&mut g, &mut grid, "a", 0, 0);
    let b = add(&mut g, &mut grid, "b", 0, 0);
    let c = add(&mut g, &mut grid, "c", 0, 0);
    let d = add(&mut g, &mut grid, "d", 0, 0);
    process_add_edge_event(&mut g, &mut grid, a, b, grey());
    process_add_edge_event(&mut g, &mut grid, c, a, grey());
    let missing = process_update_node_event(
        &mut g,
        &mut grid,
        a,
        fields("renamed\nnode", 4, 0),
        &vec![c, d, d],
    )
    .unwrap();
    // The edge to b is gone at once; the one to c stays; d is asked for twice.
    assert_eq!(g.neighbor_node_ids(a), vec![c]);
    assert_eq!(missing, vec![d, d]);
    for t in missing {
        process_add_edge_event(&mut g, &mut grid, a, t, grey());
    }
    assert_eq!(g.neighbor_node_ids(a), vec![c, d]);
    let node = g.nodes.get(&a.0).unwrap();
    assert_eq!(node.name, "renamed\nnode");
    assert_eq!(node.size.width, 7 * 7 + 20);
    assert_eq!(node.size.height, 2 * 16 + 14);
    assert_eq!(node.entity, Some(100));
    assert_eq!(cell_nodes(&grid, ChunkCoord { x: 4, y: 0 }), vec![a]);
    assert!(!cell_nodes(&grid, ChunkCoord { x: 0, y: 0 }).contains(&a));
    assert!(process_update_node_event(&mut g, &mut grid, NodeId(50), fields("x", 0, 0), &vec![]).is_none());
}

#[test]
fn moving_a_node_refiles_its_edges() {
    let mut g = GraphData::new();
    let mut grid = SpatialGrid::new();
    let a = add(&mut g, &mut grid, "a", 0, 0);
    let b = add(&mut g, &mut grid, "b", 0, 0);
    let e = process_add_edge_event(&mut g, &mut grid, a, b, grey()).unwrap();
    assert!(g.set_position(a, Vec2Bits { x: 5, y: 6 }, ChunkCoord { x: 1, y: 0 }));
    let from = ChunkCoord { x: 0, y: 0 };
    assert_eq!(sync_node_chunk(&g, &mut grid, a, from), Some(ChunkCoord { x: 1, y: 0 }));
    let c00 = grid.cells.get(&from.key()).unwrap();
    assert!(c00.edge_ids.is_empty());
    assert_eq!(c00.cross_edges, vec![e]);
    assert_eq!(c00.node_ids, vec![b]);
    let c10 = grid.cells.get(&ChunkCoord { x: 1, y: 0 }.key()).unwrap();
    assert_eq!(c10.cross_edges, vec![e]);
    assert_eq!(c10.node_ids, vec![a]);
    // Already in line: nothing to do.
    assert_eq!(sync_node_chunk(&g, &mut grid, a, ChunkCoord { x: 1, y: 0 }), None);
    assert!(!g.set_position(NodeId(9), Vec2Bits { x: 0, y: 0 }, from));
}

fn every_node_filed(g: &GraphData, grid: &SpatialGrid) -> bool {
    g.nodes.iter().all(|(k, d)| cell_nodes(grid, d.chunk).contains(&NodeId(*k)))
}

#[test]
fn every_edit_keeps_nodes_filed_in_their_chunks() {
    let mut g = GraphData::new();
    let mut grid = SpatialGrid::new();
    let a = add(&mut g, &mut grid, "a", 0, 0);
    let b = add(&mut g, &mut grid, "b", 1, 1);
    let c = add(&mut g, &mut grid, "c", -2, 3);
    assert!(every_node_filed(&g, &grid));
    process_add_edge_event(&mut g, &mut grid, a, b, grey());
    process_add_edge_event(&mut g, &mut grid, b, c, grey());
    assert!(every_node_filed(&g, &grid));
    process_update_node_event(&mut g, &mut grid, b, fields("b2", 7, 7), &vec![a]);
    assert!(every_node_filed(&g, &grid));
    g.set_position(c, Vec2Bits { x: 1, y: 1 }, ChunkCoord { x: 9, y: 9 });
    sync_node_chunk(&g, &mut grid, c, ChunkCoord { x: -2, y: 3 });
    assert!(every_node_filed(&g, &grid));
    process_delete_node_event(&mut g, &mut grid, a);
    assert!(every_node_filed(&g, &grid));
    assert_eq!(g.node_count(), 2);
}

#[test]
fn removing_the_edge_just_added_restores_the_lists() {
    let mut g = GraphData::new();
    let mut grid = SpatialGrid::new();
    let a = add(&mut g, &mut grid, "a", 0, 0);
    let b = add(&mut g, &mut grid, "b", 0, 0);
    process_add_edge_event(&mut g, &mut grid, a, b, grey());
    let before_a = g.adjacency.get(&a.0).unwrap().clone();
    let before_b = g.adjacency.get(&b.0).unwrap().clone();
    // A self-loop, listed twice, and then removed.
    let e = process_add_edge_event(&mut g, &mut grid, a, a, grey()).unwrap();
    assert_eq!(g.adjacency.get(&a.0).unwrap().len(), before_a.len() + 2);
    remove_single_edge(&mut g, &mut grid, e);
    assert_eq!(g.adjacency.get(&a.0).unwrap(), &before_a);
    assert_eq!(g.adjacency.get(&b.0).unwrap(), &before_b);
    assert_eq!(g.edge_count(), 1);
    assert_eq!(g.neighbor_node_ids(a), vec![b]);
}

fn cell_lists(grid: &SpatialGrid, c: ChunkCoord) -> (Vec<EdgeId>, Vec<EdgeId>) {
    grid.cells
        .get(&c.key())
        .map(|d| (d.edge_ids.clone(), d.cross_edges.clone()))
        .unwrap_or_default()
}

fn every_edge_filed(g: &GraphData, grid: &SpatialGrid) -> bool {
    g.edges.iter().all(|(k, d)| {
        let e = EdgeId(*k);
        let sc = g.nodes.get(&d.source.0).unwrap().chunk;
        let tc = g.nodes.get(&d.target.0).unwrap().chunk;
        if sc == tc {
            cell_lists(grid, sc).0.contains(&e)
        } else {
            cell_lists(grid, sc).1.contains(&e) && cell_lists(grid, tc).1.contains(&e)
        }
    })
}

#[test]
fn every_edit_keeps_edges_filed_where_their_ends_are() {
    let mut g = GraphData::new();
    let mut grid = SpatialGrid::new();
    let a = add(&mut g, &mut grid, "a", 0, 0);
    let b = add(&mut g, &mut grid, "b", 0, 0);
    let c = add(&mut g, &mut grid, "c", 2, 0);
    let d = add(&mut g, &mut grid, "d", 2, 0);
    process_add_edge_event(&mut g, &mut grid, a, b, grey());
    process_add_edge_event(&mut g, &mut grid, b, c, grey());
    process_add_edge_event(&mut g, &mut grid, c, d, grey());
    assert!(every_edge_filed(&g, &grid));
    // Moving b to c's chunk turns b-c inner and a-b crossing.
    assert!(g.set_position(b, Vec2Bits { x: 1, y: 1 }, ChunkCoord { x: 2, y: 0 }));
    sync_node_chunk(&g, &mut grid, b, ChunkCoord { x: 0, y: 0 });
    assert!(every_edge_filed(&g, &grid));
    assert_eq!(cell_lists(&grid, ChunkCoord { x: 2, y: 0 }).0.len(), 2);
    // An update that keeps d in its chunk and drops its edge.
    process_update_node_event(&mut g, &mut grid, d, fields("d2", 2, 0), &vec![]);
    assert!(every_edge_filed(&g, &grid));
    // An update that moves a and keeps none of its edges.
    process_update_node_event(&mut g, &mut grid, a, fields("a2", 5, 5), &vec![]);
    assert!(every_edge_filed(&g, &grid));
    process_add_edge_event(&mut g, &mut grid, a, d, grey());
    assert!(every_edge_filed(&g, &grid));
    process_delete_node_event(&mut g, &mut grid, c);
    assert!(every_edge_filed(&g, &grid));
    assert_eq!(g.edge_count(), 1);
}

#[test]
fn deleting_a_node_leaves_its_edge_ids_in_no_list() {
    let mut g = GraphData::new();
    let mut grid = SpatialGrid::new();
    let a = add(&mut g, &mut grid, "a", 0, 0);
    let b = add(&mut g, &mut grid, "b", 0, 0);
    let c = add(&mut g, &mut grid, "c", 3, 3);
    let d = add(&mut g, &mut grid, "d", 3, 3);
    let ab = process_add_edge_event(&mut g, &mut grid, a, b, grey()).unwrap();
    let ca = process_add_edge_event(&mut g, &mut grid, c, a, grey()).unwrap();
    let aa = process_add_edge_event(&mut g, &mut grid, a, a, grey()).unwrap();
    let cd = process_add_edge_event(&mut g, &mut grid, c, d, grey()).unwrap();
    process_delete_node_event(&mut g, &mut grid, a);
    let removed = [ab, ca, aa];
    for e in removed {
        assert!(!g.edges.contains_key(&e.0));
        for list in g.adjacency.values() {
            assert!(!list.contains(&e));
        }
        for cell in grid.cells.values() {
            assert!(!cell.edge_ids.contains(&e));
            assert!(!cell.cross_edges.contains(&e));
        }
    }
    // The edge that did not touch the deleted node stays where it was.
    assert!(g.edges.contains_key(&cd.0));
    assert_eq!(cell_lists(&grid, ChunkCoord { x: 3, y: 3 }).0, vec![cd]);
}

fn grid_lists_edges_only_where_filed(g: &GraphData, grid: &SpatialGrid) -> bool {
    grid.cells.iter().all(|(key, cell)| {
        let ends = |e: &EdgeId| {
            g.edges.get(&e.0).and_then(|d| {
                let sc = g.nodes.get(&d.source.0)?.chunk;
                let tc = g.nodes.get(&d.target.0)?.chunk;
                Some((sc, tc))
            })
        };
        let inner_ok = cell.edge_ids.iter().all(|e| match ends(e) {
            Some((sc, tc)) => sc == tc && sc.key() == *key,
            None => false,
        });
        let cross_ok = cell.cross_edges.iter().all(|e| match ends(e) {
            Some((sc, tc)) => sc != tc && (sc.key() == *key || tc.key() == *key),
            None => false,
        });
        inner_ok && cross_ok
    })
}

#[test]
fn edits_list_each_edge_only_where_it_is_filed() {
    let mut g = GraphData::new();
    let mut grid = SpatialGrid::new();
    let a = add(&mut g, &mut grid, "a", 0, 0);
    let b = add(&mut g, &mut grid, "b", 0, 0);
    let c = add(&mut g, &mut grid, "c", 1, 0);
    process_add_edge_event(&mut g, &mut grid, a, b, grey());
    let bc = process_add_edge_event(&mut g, &mut grid, b, c, grey()).unwrap();
    process_add_edge_event(&mut g, &mut grid, a, c, grey());
    assert!(grid_lists_edges_only_where_filed(&g, &grid));
    // a moves next to c: a-b turns crossing, a-c inner.
    g.set_position(a, Vec2Bits { x: 3, y: 3 }, ChunkCoord { x: 1, y: 0 });
    sync_node_chunk(&g, &mut grid, a, ChunkCoord { x: 0, y: 0 });
    assert!(grid_lists_edges_only_where_filed(&g, &grid));
    process_update_node_event(&mut g, &mut grid, b, fields("b", 0, 0), &vec![a]);
    assert!(grid_lists_edges_only_where_filed(&g, &grid));
    assert!(!g.edges.contains_key(&bc.0));
    process_delete_node_event(&mut g, &mut grid, a);
    assert!(grid_lists_edges_only_where_filed(&g, &grid));
    assert_eq!(g.edge_count(), 0);
    assert!(grid.cells.values().all(|cell| cell.edge_ids.is_empty() && cell.cross_edges.is_empty()));
}
