//! The walkability grid: a mapping from grid coordinate to walkability state.
//!
//! Cells absent from the grid are unknown territory, distinct from cells
//! recorded as not walkable; neither kind is a valid path step. The grid is
//! grown incrementally as tiles spawn and can be rebuilt wholesale from the
//! full tile set to recover from missed updates.

use std::collections::HashMap;
use vstd::prelude::*;

use crate::coords::{cell_key, key_of, GridCoordinate};

verus! {

broadcast use vstd::std_specs::hash::group_hash_axioms;

/// Per-cell passability flag for path search.
#[derive(Clone, Copy, Debug, PartialEq, Eq, Structural)]
pub enum WalkableState {
    NotWalkable,
    Walkable,
}

/// A cell counts as walkable only when the grid holds an entry for it and
/// that entry says so; an unknown cell is never a valid path step.
pub open spec fn is_walkable(m: Map<u64, WalkableState>, c: GridCoordinate) -> bool {
    m.contains_key(key_of(c)) && m[key_of(c)] == WalkableState::Walkable
}

/// The grid contents after recording a tile list on top of `base`, later
/// entries overriding earlier ones for the same cell.
pub open spec fn grid_with(
    base: Map<u64, WalkableState>,
    tiles: Seq<(GridCoordinate, WalkableState)>,
) -> Map<u64, WalkableState>
    decreases tiles.len(),
{
    if tiles.len() == 0 {
        base
    } else {
        grid_with(base, tiles.drop_last()).insert(key_of(tiles.last().0), tiles.last().1)
    }
}

/// The grid contents described by a tile list alone.
pub open spec fn grid_of(tiles: Seq<(GridCoordinate, WalkableState)>) -> Map<u64, WalkableState> {
    grid_with(Map::empty(), tiles)
}

/// The full map of known tile passability, keyed by packed cell coordinates.
pub struct MeshGrid {
    map: HashMap<u64, WalkableState>,
}

impl View for MeshGrid {
    type V = Map<u64, WalkableState>;

    closed spec fn view(&self) -> Map<u64, WalkableState> {
        self.map@
    }
}

impl Default for MeshGrid {
    fn default() -> (g: Self)
        ensures
            g@ == Map::<u64, WalkableState>::empty(),
    {
        MeshGrid { map: HashMap::new() }
    }
}

impl MeshGrid {
    /// An empty grid: no cell is known.
    pub fn new() -> (g: Self)
        ensures
            g@ == Map::<u64, WalkableState>::empty(),
    {
        MeshGrid { map: HashMap::new() }
    }

    /// Number of cells with a known state.
    pub fn len(&self) -> (n: usize)
        ensures
            n == self@.dom().len(),
    {
        self.map.len()
    }

    /// Inserts or overwrites the entry for one cell. Called whenever a
    /// tile's walkability is newly known or changes; always succeeds.
    pub fn set(&mut self, c: GridCoordinate, state: WalkableState)
        ensures
            final(self)@ == old(self)@.insert(key_of(c), state),
    {
        self.map.insert(cell_key(c), state);
    }

    /// The recorded state of one cell, or `None` for unknown territory.
    pub fn state_of(&self, c: GridCoordinate) -> (r: Option<WalkableState>)
        ensures
            match r {
                Some(s) => self@.contains_key(key_of(c)) && self@[key_of(c)] == s,
                None => !self@.contains_key(key_of(c)),
            },
    {
        match self.map.get(&cell_key(c)) {
            Some(s) => Some(*s),
            None => None,
        }
    }

    /// Whether a cell is known and walkable.
    pub fn walkable(&self, c: GridCoordinate) -> (b: bool)
        ensures
            b == is_walkable(self@, c),
    {
        match self.map.get(&cell_key(c)) {
            Some(s) => *s == WalkableState::Walkable,
            None => false,
        }
    }

    /// Records a batch of newly spawned or changed tiles, in order: the
    /// per-tick incremental update of the grid.
    pub fn update_tiles(&mut self, tiles: &Vec<(GridCoordinate, WalkableState)>)
        ensures
            final(self)@ == grid_with(old(self)@, tiles@),
    {
        let mut i: usize = 0;
        while i < tiles.len()
            invariant
                i <= tiles.len(),
                self@ == grid_with(old(self)@, tiles@.subrange(0, i as int)),
            decreases tiles.len() - i,
        {
            let (c, s) = tiles[i];
            self.map.insert(cell_key(c), s);
            proof {
                let pre = tiles@.subrange(0, i as int);
                let post = tiles@.subrange(0, i + 1 as int);
                assert(post.drop_last() =~= pre);
                assert(post.last() == tiles@[i as int]);
            }
            i = i + 1;
        }
        proof {
            assert(tiles@.subrange(0, tiles@.len() as int) =~= tiles@);
        }
    }

    /// Replaces the entire contents with the given tile set, all or nothing:
    /// the result is exactly the grid described by `tiles`, with no trace of
    /// the previous contents.
    pub fn rebuild(&mut self, tiles: &Vec<(GridCoordinate, WalkableState)>)
        ensures
            final(self)@ == grid_of(tiles@),
    {
        self.map.clear();
        let mut i: usize = 0;
        while i < tiles.len()
            invariant
                i <= tiles.len(),
                self@ == grid_of(tiles@.subrange(0, i as int)),
            decreases tiles.len() - i,
        {
            let (c, s) = tiles[i];
            self.map.insert(cell_key(c), s);
            proof {
                let pre = tiles@.subrange(0, i as int);
                let post = tiles@.subrange(0, i + 1 as int);
                assert(post.drop_last() =~= pre);
                assert(post.last() == tiles@[i as int]);
            }
            i = i + 1;
        }
        proof {
            assert(tiles@.subrange(0, tiles@.len() as int) =~= tiles@);
        }
    }

    /// The set of known cells is finite: the grid holds one entry per
    /// recorded tile.
    pub proof fn lemma_dom_finite(&self)
        ensures
            self@.dom().finite(),
    {
        assert(self.map@.dom().finite());
    }

    /// An independent copy of the current contents, for a search task that
    /// must keep reading a consistent grid while the original moves on.
    pub fn snapshot(&self) -> (g: MeshGrid)
        ensures
            g@ == self@,
    {
        MeshGrid { map: self.map.clone() }
    }
}

} // verus!
