use navmesh::coords::GridCoordinate;
use navmesh::follower::{MoveDecision, PathFollower};
use navmesh::protocol::{apply_answer, NavmeshAnswerEvent};

fn c(x: i32, y: i32) -> GridCoordinate {
    GridCoordinate { x, y }
}

#[test]
fn idle_follower_emits_no_movement() {
    let mut f = PathFollower::new();
    assert_eq!(f.follow_step(c(3, 3)), MoveDecision::Stay);
    assert!(f.move_path.is_empty());
    assert_eq!(f.move_to, None);
}

#[test]
fn follower_targets_front_of_queue() {
    let mut f = PathFollower::new();
    f.install_path(vec![c(1, 0), c(2, 0)]);
    let d = f.follow_step(c(0, 0));
    assert_eq!(d, MoveDecision::Toward(c(1, 0)));
    assert_eq!(f.move_to, Some(c(1, 0)));
    assert_eq!(f.move_path, vec![c(2, 0)]);
}

#[test]
fn arrival_then_next_waypoint() {
    // Standing on the first queued waypoint: the arrival tick emits no
    // movement, and the tick after targets the next waypoint.
    let mut f = PathFollower::new();
    f.install_path(vec![c(1, 0), c(2, 0)]);
    assert_eq!(f.follow_step(c(1, 0)), MoveDecision::Stay);
    assert_eq!(f.move_to, None);
    let d = f.follow_step(c(1, 0));
    assert_eq!(d, MoveDecision::Toward(c(2, 0)));
    assert_eq!(f.move_to, Some(c(2, 0)));
    assert!(f.move_path.is_empty());
}

#[test]
fn final_waypoint_transitions_to_idle() {
    let mut f = PathFollower::new();
    f.install_path(vec![c(1, 0)]);
    assert_eq!(f.follow_step(c(0, 0)), MoveDecision::Toward(c(1, 0)));
    // The entity has walked onto the final waypoint's cell.
    assert_eq!(f.follow_step(c(1, 0)), MoveDecision::Stay);
    assert_eq!(f.move_to, None);
    assert!(f.move_path.is_empty());
    // From then on the follower stays idle and keeps emitting no movement.
    assert_eq!(f.follow_step(c(1, 0)), MoveDecision::Stay);
    assert_eq!(f.follow_step(c(2, 7)), MoveDecision::Stay);
    assert_eq!(f.move_to, None);
    assert!(f.move_path.is_empty());
}

#[test]
fn replacing_path_discards_untraveled_waypoints() {
    let mut f = PathFollower::new();
    f.install_path(vec![c(4, 0), c(5, 0), c(6, 0)]);
    assert_eq!(f.follow_step(c(0, 0)), MoveDecision::Toward(c(4, 0)));
    // Mid-traversal a new path arrives and replaces everything.
    f.install_path(vec![c(9, 9), c(9, 8)]);
    assert_eq!(f.move_to, None);
    assert_eq!(f.move_path, vec![c(9, 9), c(9, 8)]);
    // The very next tick targets the first waypoint of the new path.
    assert_eq!(f.follow_step(c(0, 0)), MoveDecision::Toward(c(9, 9)));
    assert_eq!(f.move_to, Some(c(9, 9)));
    assert_eq!(f.move_path, vec![c(9, 8)]);
}

#[test]
fn last_answer_wins() {
    // Two answers for the same entity processed in order within one tick:
    // the one processed last determines the queue.
    let mut f = PathFollower::new();
    let first = NavmeshAnswerEvent { requesting_entity: 1, path: Ok(vec![c(5, 0)]) };
    let second = NavmeshAnswerEvent { requesting_entity: 1, path: Ok(vec![c(1, 0), c(1, 1)]) };
    apply_answer(&mut f, 1, first);
    apply_answer(&mut f, 1, second);
    assert_eq!(f.move_path, vec![c(1, 0), c(1, 1)]);
    assert_eq!(f.move_to, None);
}

#[test]
fn failure_answer_clears_queue() {
    let mut f = PathFollower::new();
    f.install_path(vec![c(1, 0), c(2, 0)]);
    f.follow_step(c(0, 0));
    let failure = NavmeshAnswerEvent { requesting_entity: 3, path: Err(()) };
    apply_answer(&mut f, 3, failure);
    assert!(f.move_path.is_empty());
    assert_eq!(f.move_to, None);
    assert_eq!(f.follow_step(c(0, 0)), MoveDecision::Stay);
}

#[test]
fn answer_for_other_entity_is_ignored() {
    let mut f = PathFollower::new();
    f.install_path(vec![c(1, 0)]);
    let stray = NavmeshAnswerEvent { requesting_entity: 8, path: Ok(vec![c(9, 9)]) };
    apply_answer(&mut f, 2, stray);
    assert_eq!(f.move_path, vec![c(1, 0)]);
    assert_eq!(f.move_to, None);
}

#[test]
fn clear_path_goes_idle() {
    let mut f = PathFollower::new();
    f.install_path(vec![c(1, 0), c(2, 0)]);
    f.follow_step(c(0, 0));
    f.clear_path();
    assert!(f.move_path.is_empty());
    assert_eq!(f.move_to, None);
}
