use navmesh::coords::{cell_key, room_tile_to_grid, GridCoordinate, TILES_PER_ROOM, TILE_SIZE};
use navmesh::grid::{MeshGrid, WalkableState};
use navmesh::protocol::{pairs_to_path, path_to_pairs};

fn c(x: i32, y: i32) -> GridCoordinate {
    GridCoordinate { x, y }
}

#[test]
fn unknown_cell_has_no_state() {
    let g = MeshGrid::new();
    assert_eq!(g.state_of(c(0, 0)), None);
    assert!(!g.walkable(c(0, 0)));
    assert_eq!(g.len(), 0);
}

#[test]
fn set_records_and_overwrites() {
    let mut g = MeshGrid::new();
    g.set(c(2, 3), WalkableState::Walkable);
    assert_eq!(g.state_of(c(2, 3)), Some(WalkableState::Walkable));
    assert!(g.walkable(c(2, 3)));
    g.set(c(2, 3), WalkableState::NotWalkable);
    assert_eq!(g.state_of(c(2, 3)), Some(WalkableState::NotWalkable));
    assert!(!g.walkable(c(2, 3)));
    assert_eq!(g.len(), 1);
}

#[test]
fn explicitly_blocked_differs_from_unknown() {
    let mut g = MeshGrid::new();
    g.set(c(1, 1), WalkableState::NotWalkable);
    assert_eq!(g.state_of(c(1, 1)), Some(WalkableState::NotWalkable));
    assert_eq!(g.state_of(c(1, 2)), None);
}

#[test]
fn update_tiles_applies_batch_in_order() {
    let mut g = MeshGrid::new();
    g.set(c(0, 0), WalkableState::Walkable);
    let batch = vec![
        (c(1, 0), WalkableState::Walkable),
        (c(2, 0), WalkableState::Walkable),
        (c(1, 0), WalkableState::NotWalkable),
    ];
    g.update_tiles(&batch);
    // Existing entries survive, the batch lands, later entries win.
    assert_eq!(g.state_of(c(0, 0)), Some(WalkableState::Walkable));
    assert_eq!(g.state_of(c(1, 0)), Some(WalkableState::NotWalkable));
    assert_eq!(g.state_of(c(2, 0)), Some(WalkableState::Walkable));
    assert_eq!(g.len(), 3);
}

#[test]
fn rebuild_replaces_contents_wholesale() {
    let mut g = MeshGrid::new();
    g.set(c(0, 0), WalkableState::Walkable);
    g.set(c(1, 0), WalkableState::NotWalkable);
    let tiles = vec![(c(5, 5), WalkableState::Walkable), (c(6, 5), WalkableState::NotWalkable)];
    g.rebuild(&tiles);
    // Nothing of the old contents survives, and the new tiles are all there.
    assert_eq!(g.state_of(c(0, 0)), None);
    assert_eq!(g.state_of(c(1, 0)), None);
    assert_eq!(g.state_of(c(5, 5)), Some(WalkableState::Walkable));
    assert_eq!(g.state_of(c(6, 5)), Some(WalkableState::NotWalkable));
    assert_eq!(g.len(), 2);
}

#[test]
fn rebuild_with_duplicate_tiles_keeps_last() {
    let mut g = MeshGrid::new();
    let tiles = vec![(c(0, 0), WalkableState::Walkable), (c(0, 0), WalkableState::NotWalkable)];
    g.rebuild(&tiles);
    assert_eq!(g.state_of(c(0, 0)), Some(WalkableState::NotWalkable));
    assert_eq!(g.len(), 1);
}

#[test]
fn snapshot_is_unaffected_by_later_writes() {
    // A reader that takes its snapshot before a rebuild sees the old grid
    // in full, never a mixture of old and new.
    let mut g = MeshGrid::new();
    g.set(c(0, 0), WalkableState::Walkable);
    let snap = g.snapshot();
    g.rebuild(&vec![(c(9, 9), WalkableState::Walkable)]);
    assert_eq!(snap.state_of(c(0, 0)), Some(WalkableState::Walkable));
    assert_eq!(snap.state_of(c(9, 9)), None);
    assert_eq!(g.state_of(c(0, 0)), None);
    assert_eq!(g.state_of(c(9, 9)), Some(WalkableState::Walkable));
}

#[test]
fn cell_keys_separate_axes() {
    // The packed key tells apart cells that agree on one axis or swap axes.
    assert_ne!(cell_key(c(1, 0)), cell_key(c(0, 1)));
    assert_ne!(cell_key(c(-1, -1)), cell_key(c(1, 1)));
    assert_eq!(cell_key(c(3, -7)), cell_key(c(3, -7)));
}

#[test]
fn room_tile_placement() {
    assert_eq!(TILE_SIZE, 8);
    assert_eq!(TILES_PER_ROOM, 12);
    // A tile at (3, 4) inside the room at room-address (1, 0) lands twelve
    // cells to the right of the same tile in the room at the origin.
    assert_eq!(room_tile_to_grid(c(3, 4), c(0, 0)), c(3, 4));
    assert_eq!(room_tile_to_grid(c(3, 4), c(1, 0)), c(15, 4));
    assert_eq!(room_tile_to_grid(c(3, 4), c(-1, -1)), c(-9, -8));
    assert_eq!(room_tile_to_grid(c(0, 11), c(2, 2)), c(24, 35));
}

#[test]
fn waypoint_pairs_round_trip() {
    let path = vec![c(0, 0), c(1, 0), c(1, 1), c(-3, 7)];
    let pairs = path_to_pairs(&path);
    assert_eq!(pairs, vec![(0, 0), (1, 0), (1, 1), (-3, 7)]);
    let back = pairs_to_path(&pairs);
    assert_eq!(back, path);
}

#[test]
fn empty_waypoint_list_round_trips() {
    let path: Vec<GridCoordinate> = Vec::new();
    let pairs = path_to_pairs(&path);
    assert!(pairs.is_empty());
    assert!(pairs_to_path(&pairs).is_empty());
}
