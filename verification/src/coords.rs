//! Grid coordinates: the integer addresses of tile cells.

use vstd::prelude::*;

verus! {

/// Side length of one tile cell in world units.
pub const TILE_SIZE: i32 = 8;

/// Number of tile cells along one side of a room.
pub const TILES_PER_ROOM: i32 = 12;

/// An integer pair addressing one tile cell. Identity is structural: two
/// coordinates with equal `x` and equal `y` are the same key.
#[derive(Clone, Copy, Debug, PartialEq, Eq, Structural, Hash)]
pub struct GridCoordinate {
    pub x: i32,
    pub y: i32,
}

/// Two cells are adjacent when they differ by exactly one step along exactly
/// one axis: the four-connected neighbourhood, no diagonals.
pub open spec fn adjacent(a: GridCoordinate, b: GridCoordinate) -> bool {
    let dx = a.x as int - b.x as int;
    let dy = a.y as int - b.y as int;
    ||| (dx == 0 && (dy == 1 || dy == -1))
    ||| (dy == 0 && (dx == 1 || dx == -1))
}

/// The map key of a cell: `x` in the high 32 bits, `y` in the low 32 bits.
pub open spec fn key_of(c: GridCoordinate) -> u64 {
    ((c.x as u32) as u64) << 32 | ((c.y as u32) as u64)
}

/// Distinct cells pack to distinct keys.
pub proof fn lemma_key_of_injective(a: GridCoordinate, b: GridCoordinate)
    requires
        key_of(a) == key_of(b),
    ensures
        a == b,
{
    let (ax, ay, bx, by) = (a.x, a.y, b.x, b.y);
    assert((((ax as u32) as u64) << 32 | ((ay as u32) as u64)) == (((bx as u32) as u64) << 32 | (
    (by as u32) as u64)) ==> ax == bx && ay == by) by (bit_vector);
}

/// Computes the map key of a cell.
pub fn cell_key(c: GridCoordinate) -> (k: u64)
    ensures
        k == key_of(c),
{
    ((c.x as u32) as u64) << 32 | ((c.y as u32) as u64)
}

/// Places a tile given by its cell address inside a room onto the global
/// grid, for a room whose own address counts in room-sized strides.
pub fn room_tile_to_grid(local: GridCoordinate, room: GridCoordinate) -> (g: GridCoordinate)
    requires
        i32::MIN <= local.x as int + (TILES_PER_ROOM as int) * (room.x as int) <= i32::MAX,
        i32::MIN <= local.y as int + (TILES_PER_ROOM as int) * (room.y as int) <= i32::MAX,
    ensures
        g.x as int == local.x as int + (TILES_PER_ROOM as int) * (room.x as int),
        g.y as int == local.y as int + (TILES_PER_ROOM as int) * (room.y as int),
{
    let gx: i64 = local.x as i64 + (TILES_PER_ROOM as i64) * (room.x as i64);
    let gy: i64 = local.y as i64 + (TILES_PER_ROOM as i64) * (room.y as i64);
    GridCoordinate { x: gx as i32, y: gy as i32 }
}

} // verus!
