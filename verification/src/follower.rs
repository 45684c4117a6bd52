//! Path following: per-entity state that consumes a computed path one
//! waypoint at a time and decides each tick how the entity should move.
//!
//! Both the locally-controlled and the remotely-mirrored entity kinds carry
//! this same state and step through the same routine once per tick; only who
//! replaces the queue differs.

use vstd::prelude::*;

use crate::coords::GridCoordinate;

verus! {

/// What the follower asks of the motion integrator for one tick: either no
/// movement at all, or movement toward the world position of one cell. The
/// caller turns `Toward` into a direction vector scaled by speed and elapsed
/// time.
#[derive(Clone, Copy, Debug, PartialEq, Eq, Structural)]
pub enum MoveDecision {
    Stay,
    Toward(GridCoordinate),
}

/// The mathematical state of a follower: the pending waypoint queue and the
/// current target waypoint, if any.
pub ghost struct FollowerModel {
    pub move_path: Seq<GridCoordinate>,
    pub move_to: Option<GridCoordinate>,
}

impl FollowerModel {
    /// No queued waypoints and no current target: the follower rests until a
    /// new path is installed.
    pub open spec fn is_idle(self) -> bool {
        self.move_path.len() == 0 && self.move_to is None
    }
}

/// The follower state after one tick taken at cell `at`: a follower without
/// a target first takes the front of the queue as its target; a follower
/// standing on its target's cell drops that target.
pub open spec fn step_state(s: FollowerModel, at: GridCoordinate) -> FollowerModel {
    let aimed = if s.move_to is None && s.move_path.len() > 0 {
        FollowerModel {
            move_path: s.move_path.drop_first(),
            move_to: Some(s.move_path.first()),
        }
    } else {
        s
    };
    match aimed.move_to {
        None => aimed,
        Some(t) => if t == at {
            FollowerModel { move_path: aimed.move_path, move_to: None }
        } else {
            aimed
        },
    }
}

/// The movement decision of that same tick: no movement while the follower
/// is idle or standing on its target's cell, movement toward the target
/// otherwise.
pub open spec fn step_decision(s: FollowerModel, at: GridCoordinate) -> MoveDecision {
    let aimed = if s.move_to is None && s.move_path.len() > 0 {
        FollowerModel {
            move_path: s.move_path.drop_first(),
            move_to: Some(s.move_path.first()),
        }
    } else {
        s
    };
    match aimed.move_to {
        None => MoveDecision::Stay,
        Some(t) => if t == at {
            MoveDecision::Stay
        } else {
            MoveDecision::Toward(t)
        },
    }
}

/// Per-entity movement playback state.
pub struct PathFollower {
    pub move_path: Vec<GridCoordinate>,
    pub move_to: Option<GridCoordinate>,
}

impl View for PathFollower {
    type V = FollowerModel;

    open spec fn view(&self) -> FollowerModel {
        FollowerModel { move_path: self.move_path@, move_to: self.move_to }
    }
}

impl Default for PathFollower {
    fn default() -> (f: Self)
        ensures
            f@.is_idle(),
    {
        PathFollower { move_path: Vec::new(), move_to: None }
    }
}

impl PathFollower {
    /// A follower with nothing to do.
    pub fn new() -> (f: Self)
        ensures
            f@.is_idle(),
    {
        PathFollower { move_path: Vec::new(), move_to: None }
    }

    /// Advances the follower by one tick, with the entity currently standing
    /// on cell `at`, and returns the movement decision for this tick.
    pub fn follow_step(&mut self, at: GridCoordinate) -> (d: MoveDecision)
        ensures
            final(self)@ == step_state(old(self)@, at),
            d == step_decision(old(self)@, at),
    {
        if self.move_to.is_none() && self.move_path.len() > 0 {
            let t = self.move_path.remove(0);
            self.move_to = Some(t);
            proof {
                assert(old(self)@.move_path.remove(0) =~= old(self)@.move_path.drop_first());
            }
        }
        match self.move_to {
            None => MoveDecision::Stay,
            Some(t) => {
                if t == at {
                    self.move_to = None;
                    MoveDecision::Stay
                } else {
                    MoveDecision::Toward(t)
                }
            },
        }
    }

    /// Unconditionally replaces whatever is being followed with a freshly
    /// computed path: the old queue and any in-flight target are discarded.
    pub fn install_path(&mut self, path: Vec<GridCoordinate>)
        ensures
            final(self)@.move_path == path@,
            final(self)@.move_to is None,
    {
        self.move_path = path;
        self.move_to = None;
    }

    /// Discards whatever is being followed; the follower goes idle.
    pub fn clear_path(&mut self)
        ensures
            final(self)@.is_idle(),
    {
        self.move_path = Vec::new();
        self.move_to = None;
    }
}

/// A follower that has just arrived on its final waypoint's cell goes idle:
/// the tick drops the target, leaves the queue empty and asks for no
/// movement.
pub proof fn lemma_final_waypoint_idles(s: FollowerModel, at: GridCoordinate)
    requires
        s.move_path.len() == 0,
        s.move_to == Some(at),
    ensures
        step_state(s, at).is_idle(),
        step_decision(s, at) == MoveDecision::Stay,
{
}

/// An idle follower stays idle and keeps asking for no movement, whatever
/// cell the entity stands on, until a new path is installed.
pub proof fn lemma_idle_stays_idle(s: FollowerModel, at: GridCoordinate)
    requires
        s.is_idle(),
    ensures
        step_state(s, at) == s,
        step_decision(s, at) == MoveDecision::Stay,
{
}

/// After a path replaces whatever was being followed, the very next tick
/// works from the new path alone: it targets the new path's first waypoint
/// and keeps exactly the remaining new waypoints queued, with no leftover of
/// the old path.
pub proof fn lemma_replacement_forgets_old_path(path: Seq<GridCoordinate>, at: GridCoordinate)
    requires
        path.len() > 0,
    ensures
        ({
            let installed = FollowerModel { move_path: path, move_to: None };
            &&& step_state(installed, at).move_path == path.drop_first()
            &&& step_state(installed, at).move_to == if path.first() == at {
                None::<GridCoordinate>
            } else {
                Some(path.first())
            }
            &&& step_decision(installed, at) == if path.first() == at {
                MoveDecision::Stay
            } else {
                MoveDecision::Toward(path.first())
            }
        }),
{
}

} // verus!
