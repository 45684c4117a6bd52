use navmesh::coords::GridCoordinate;
use navmesh::grid::{MeshGrid, WalkableState};
use navmesh::protocol::{pathfind, MoveRequest};
use navmesh::search::find_path;

fn c(x: i32, y: i32) -> GridCoordinate {
    GridCoordinate { x, y }
}

fn grid_of(walkable: &[(i32, i32)], blocked: &[(i32, i32)]) -> MeshGrid {
    let mut g = MeshGrid::new();
    for &(x, y) in walkable {
        g.set(c(x, y), WalkableState::Walkable);
    }
    for &(x, y) in blocked {
        g.set(c(x, y), WalkableState::NotWalkable);
    }
    g
}

fn assert_is_valid_path(g: &MeshGrid, path: &[GridCoordinate], from: GridCoordinate, to: GridCoordinate) {
    assert!(!path.is_empty());
    assert_eq!(path[0], from);
    assert_eq!(*path.last().unwrap(), to);
    for w in path {
        assert_eq!(g.state_of(*w), Some(WalkableState::Walkable));
    }
    for pair in path.windows(2) {
        let dx = (pair[0].x - pair[1].x).abs();
        let dy = (pair[0].y - pair[1].y).abs();
        assert_eq!(dx + dy, 1, "consecutive waypoints must be adjacent");
    }
}

#[test]
fn corridor_path_found() {
    let g = grid_of(&[(0, 0), (1, 0), (2, 0)], &[]);
    let path = find_path(&g, c(0, 0), c(2, 0)).expect("a straight corridor has a path");
    assert_eq!(path, vec![c(0, 0), c(1, 0), c(2, 0)]);
}

#[test]
fn blocked_corridor_fails() {
    let g = grid_of(&[(0, 0), (2, 0)], &[(1, 0)]);
    assert!(find_path(&g, c(0, 0), c(2, 0)).is_none());
}

#[test]
fn empty_grid_fails() {
    let g = MeshGrid::new();
    assert!(find_path(&g, c(0, 0), c(5, 5)).is_none());
}

#[test]
fn origin_equals_destination() {
    let g = grid_of(&[(7, -3)], &[]);
    let path = find_path(&g, c(7, -3), c(7, -3)).expect("a cell reaches itself");
    assert_eq!(path, vec![c(7, -3)]);
}

#[test]
fn unknown_destination_fails() {
    let g = grid_of(&[(0, 0), (1, 0)], &[]);
    assert!(find_path(&g, c(0, 0), c(9, 9)).is_none());
}

#[test]
fn unknown_origin_fails() {
    let g = grid_of(&[(0, 0), (1, 0)], &[]);
    assert!(find_path(&g, c(9, 9), c(0, 0)).is_none());
}

#[test]
fn non_walkable_origin_fails() {
    let g = grid_of(&[(1, 0)], &[(0, 0)]);
    assert!(find_path(&g, c(0, 0), c(1, 0)).is_none());
}

#[test]
fn detour_around_obstacle() {
    // A 3x3 room with the centre blocked: the search must route around it.
    let mut walkable = Vec::new();
    for x in 0..3 {
        for y in 0..3 {
            if !(x == 1 && y == 1) {
                walkable.push((x, y));
            }
        }
    }
    let g = grid_of(&walkable, &[(1, 1)]);
    let path = find_path(&g, c(0, 0), c(2, 2)).expect("the ring around the centre connects the corners");
    assert_is_valid_path(&g, &path, c(0, 0), c(2, 2));
    assert_eq!(path.len(), 5, "the shortest detour takes four steps");
}

#[test]
fn disconnected_regions_fail() {
    let g = grid_of(&[(0, 0), (1, 0), (5, 5), (6, 5)], &[]);
    assert!(find_path(&g, c(0, 0), c(6, 5)).is_none());
}

#[test]
fn shortest_of_two_unequal_routes() {
    // Two routes join (4,0) to (0,4): an 8-step one turning up at column 1,
    // and a 10-step detour through (0,0),(0,1),(0,2). The search must take
    // the short one, even though both branches open in a cost tie at (1,0).
    let cells = [
        (4, 0), (3, 0), (2, 0), (1, 0), (0, 0), (0, 1), (0, 2), (1, 1), (1, 2), (1, 3),
        (1, 4), (0, 4),
    ];
    let g = grid_of(&cells, &[]);
    let path = find_path(&g, c(4, 0), c(0, 4)).expect("both routes connect the endpoints");
    assert_is_valid_path(&g, &path, c(4, 0), c(0, 4));
    assert_eq!(path.len(), 9, "the unique shortest route takes eight steps");
    assert_eq!(
        path,
        vec![c(4, 0), c(3, 0), c(2, 0), c(1, 0), c(1, 1), c(1, 2), c(1, 3), c(1, 4), c(0, 4)]
    );
}

#[test]
fn repeated_search_same_length() {
    // Two equal-cost routes around a 2x2 ring: searching twice with an
    // unchanged grid and an identical request must agree in length.
    let g = grid_of(&[(0, 0), (1, 0), (0, 1), (1, 1)], &[]);
    let first = find_path(&g, c(0, 0), c(1, 1)).expect("the ring connects opposite corners");
    let second = find_path(&g, c(0, 0), c(1, 1)).expect("the grid has not changed");
    assert_eq!(first.len(), second.len());
    assert_eq!(first, second, "the tie-breaking rule is deterministic");
    assert_is_valid_path(&g, &first, c(0, 0), c(1, 1));
}

#[test]
fn long_path_is_valid() {
    // A winding corridor; every returned step must be adjacent and walkable.
    let cells = [
        (0, 0), (0, 1), (0, 2), (1, 2), (2, 2), (2, 1), (2, 0), (3, 0), (4, 0), (4, 1),
    ];
    let g = grid_of(&cells, &[(1, 0), (1, 1), (3, 1), (3, 2)]);
    let path = find_path(&g, c(0, 0), c(4, 1)).expect("the corridor connects its ends");
    assert_is_valid_path(&g, &path, c(0, 0), c(4, 1));
    assert_eq!(path.len(), 10, "the corridor admits exactly one route");
}

#[test]
fn pathfind_answers_carry_requester() {
    let g = grid_of(&[(0, 0), (1, 0)], &[]);
    let request = MoveRequest { requesting_entity: 42, move_from: c(0, 0), move_to: c(1, 0) };
    let answer = pathfind(&request, &g);
    assert_eq!(answer.requesting_entity, 42);
    assert_eq!(answer.path, Ok(vec![c(0, 0), c(1, 0)]));
}

#[test]
fn pathfind_reports_failure() {
    let g = grid_of(&[(0, 0)], &[]);
    let request = MoveRequest { requesting_entity: 7, move_from: c(0, 0), move_to: c(3, 3) };
    let answer = pathfind(&request, &g);
    assert_eq!(answer.requesting_entity, 7);
    assert_eq!(answer.path, Err(()));
}
