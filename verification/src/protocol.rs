//! The request/answer protocol: one movement intent in, one path answer
//! out, and the answer's delivery into the matching follower.
//!
//! Requests and answers are matched strictly by requester identity. When
//! several answers for the same follower are processed in order, the last
//! one processed wins wholesale: each application discards everything the
//! follower held before.

use vstd::prelude::*;

use crate::coords::GridCoordinate;
use crate::follower::PathFollower;
use crate::grid::MeshGrid;
use crate::search::{find_path, reachable, shortest_path};

verus! {

/// One movement intent: the requesting entity, the cell it stands on, and
/// the cell it wants to reach. Created once per intent and not retained
/// after dispatch.
#[derive(Clone, Copy, Debug, PartialEq, Eq, Structural)]
pub struct MoveRequest {
    pub requesting_entity: u64,
    pub move_from: GridCoordinate,
    pub move_to: GridCoordinate,
}

/// The answer to one movement intent: the requester it belongs to, and
/// either the ordered path from origin to destination or a failure marker
/// for an unknown origin, an unknown destination or disconnected cells.
#[derive(Debug)]
pub struct NavmeshAnswerEvent {
    pub requesting_entity: u64,
    pub path: Result<Vec<GridCoordinate>, ()>,
}

/// Answers one movement request against a grid snapshot.
///
/// The answer carries the requester's identity unchanged. It is `Ok`
/// exactly when a walkable four-connected path joins the request's origin
/// to its destination, and the carried path is then such a path of minimal
/// length, origin included as its first waypoint; otherwise it is the
/// failure marker.
pub fn pathfind(request: &MoveRequest, grid: &MeshGrid) -> (answer: NavmeshAnswerEvent)
    ensures
        answer.requesting_entity == request.requesting_entity,
        answer.path is Ok <==> reachable(grid@, request.move_from, request.move_to),
        answer.path matches Ok(p) ==> shortest_path(grid@, p@, request.move_from, request.move_to),
{
    match find_path(grid, request.move_from, request.move_to) {
        Some(path) => NavmeshAnswerEvent {
            requesting_entity: request.requesting_entity,
            path: Ok(path),
        },
        None => NavmeshAnswerEvent { requesting_entity: request.requesting_entity, path: Err(()) },
    }
}

/// Delivers one answer to a follower owned by entity `my_id`.
///
/// An answer destined for another identity leaves the follower untouched. A
/// matching successful answer replaces the follower's whole state with the
/// answered path; a matching failure empties it. Either way nothing of the
/// previously followed path survives, so processing several matching
/// answers in order leaves exactly the last one's effect.
pub fn apply_answer(follower: &mut PathFollower, my_id: u64, answer: NavmeshAnswerEvent)
    ensures
        answer.requesting_entity != my_id ==> final(follower)@ == old(follower)@,
        answer.requesting_entity == my_id ==> match answer.path {
            Ok(p) => final(follower)@.move_path == p@ && final(follower)@.move_to is None,
            Err(_) => final(follower)@.is_idle(),
        },
{
    if answer.requesting_entity == my_id {
        match answer.path {
            Ok(p) => follower.install_path(p),
            Err(_) => follower.clear_path(),
        }
    }
}

/// Flattens a path into the (x, y) pair list handed to the network layer
/// for broadcast to peers.
pub fn path_to_pairs(path: &Vec<GridCoordinate>) -> (pairs: Vec<(i32, i32)>)
    ensures
        pairs@.len() == path@.len(),
        forall|i: int| 0 <= i < path@.len() ==> #[trigger] pairs@[i] == (path@[i].x, path@[i].y),
{
    let mut pairs: Vec<(i32, i32)> = Vec::new();
    let mut i: usize = 0;
    while i < path.len()
        invariant
            i <= path@.len(),
            pairs@.len() == i,
            forall|j: int| 0 <= j < i ==> #[trigger] pairs@[j] == (path@[j].x, path@[j].y),
        decreases path@.len() - i,
    {
        let c = path[i];
        pairs.push((c.x, c.y));
        i = i + 1;
    }
    pairs
}

/// Rebuilds a waypoint list from a received (x, y) pair list; the inverse
/// of [`path_to_pairs`].
pub fn pairs_to_path(pairs: &Vec<(i32, i32)>) -> (path: Vec<GridCoordinate>)
    ensures
        path@.len() == pairs@.len(),
        forall|i: int|
            0 <= i < pairs@.len() ==> #[trigger] path@[i] == (GridCoordinate {
                x: pairs@[i].0,
                y: pairs@[i].1,
            }),
{
    let mut path: Vec<GridCoordinate> = Vec::new();
    let mut i: usize = 0;
    while i < pairs.len()
        invariant
            i <= pairs@.len(),
            path@.len() == i,
            forall|j: int|
                0 <= j < i ==> #[trigger] path@[j] == (GridCoordinate {
                    x: pairs@[j].0,
                    y: pairs@[j].1,
                }),
        decreases pairs@.len() - i,
    {
        let p = pairs[i];
        path.push(GridCoordinate { x: p.0, y: p.1 });
        i = i + 1;
    }
    path
}

/// Sending a path over the wire loses nothing: flattening a waypoint list
/// to (x, y) pairs and rebuilding it yields the original list.
pub proof fn lemma_pair_encoding_lossless(
    path: Seq<GridCoordinate>,
    pairs: Seq<(i32, i32)>,
    back: Seq<GridCoordinate>,
)
    requires
        pairs.len() == path.len(),
        forall|i: int| 0 <= i < path.len() ==> #[trigger] pairs[i] == (path[i].x, path[i].y),
        back.len() == pairs.len(),
        forall|i: int|
            0 <= i < pairs.len() ==> #[trigger] back[i] == (GridCoordinate {
                x: pairs[i].0,
                y: pairs[i].1,
            }),
    ensures
        back == path,
{
    assert forall|i: int| 0 <= i < path.len() implies #[trigger] back[i] == path[i] by {
        assert(pairs[i] == (path[i].x, path[i].y));
    }
    assert(back =~= path);
}

} // verus!
