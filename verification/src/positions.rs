//! Coordinates: chunks in chunk space, voxels in world space, cells inside one
//! chunk's padded grid.

use vstd::prelude::*;

verus! {

/// Side of a chunk's grid, halo included.
pub const CHUNK_SIZE: u32 = 34;

/// Side of a chunk's interior.
pub const REAL_CHUNK_SIZE: u32 = CHUNK_SIZE - 2;

/// Largest absolute chunk coordinate whose cells, halo and neighbours all have
/// world coordinates that fit the machine integers with room to spare.
pub const MAX_CHUNK_COORDINATE: i32 = 33_554_432;

/// A chunk, in chunk space.
#[derive(Clone, Copy, Debug, PartialEq, Eq, Hash, Structural)]
pub struct ChunkPosition {
    pub x: i32,
    pub y: i32,
    pub z: i32,
}

/// A voxel, in world space.
#[derive(Clone, Copy, Debug, PartialEq, Eq, Hash, Structural)]
pub struct WorldPosition {
    pub x: i32,
    pub y: i32,
    pub z: i32,
}

/// The chunk coordinate of a world coordinate along one axis: floor division
/// by the interior side.
pub open spec fn chunk_axis(v: int) -> int {
    v / (REAL_CHUNK_SIZE as int)
}

/// The cell coordinate of a world coordinate along one axis: the remainder,
/// moved past the halo.
pub open spec fn cell_axis(v: int) -> int {
    v % (REAL_CHUNK_SIZE as int) + 1
}

/// The world coordinate of cell coordinate `value` in the chunk at
/// `chunk_position_axis`, along one axis.
pub open spec fn world_axis(value: int, chunk_position_axis: int) -> int {
    value - 1 + chunk_position_axis * (REAL_CHUNK_SIZE as int)
}

impl ChunkPosition {
    /// Whether every coordinate lies within `MAX_CHUNK_COORDINATE` of zero.
    pub open spec fn in_world(self) -> bool {
        &&& -MAX_CHUNK_COORDINATE <= self.x <= MAX_CHUNK_COORDINATE
        &&& -MAX_CHUNK_COORDINATE <= self.y <= MAX_CHUNK_COORDINATE
        &&& -MAX_CHUNK_COORDINATE <= self.z <= MAX_CHUNK_COORDINATE
    }

    /// Decides `in_world`.
    pub fn is_in_world(&self) -> (b: bool)
        ensures
            b == self.in_world(),
    {
        -MAX_CHUNK_COORDINATE <= self.x && self.x <= MAX_CHUNK_COORDINATE
            && -MAX_CHUNK_COORDINATE <= self.y && self.y <= MAX_CHUNK_COORDINATE
            && -MAX_CHUNK_COORDINATE <= self.z && self.z <= MAX_CHUNK_COORDINATE
    }

    /// The chunk one step away along an axis (0, 1, 2 for x, y, z).
    pub open spec fn step(self, axis: int, by: int) -> ChunkPosition {
        ChunkPosition {
            x: if axis == 0 { (self.x + by) as i32 } else { self.x },
            y: if axis == 1 { (self.y + by) as i32 } else { self.y },
            z: if axis == 2 { (self.z + by) as i32 } else { self.z },
        }
    }
}

fn floor_div(v: i32) -> (q: i32)
    ensures
        q == chunk_axis(v as int),
{
    let q: i32 = v / 32;
    if v < 0 && v % 32 != 0 {
        q - 1
    } else {
        q
    }
}

fn floor_rem(v: i32) -> (r: u32)
    ensures
        r == v as int % (REAL_CHUNK_SIZE as int),
        r < REAL_CHUNK_SIZE,
{
    let r: i32 = v % 32;
    if r < 0 {
        (r + 32) as u32
    } else {
        r as u32
    }
}

/// The chunk that holds a voxel in its interior.
pub fn world_position_to_chunk_position(world_position: WorldPosition) -> (chunk: ChunkPosition)
    ensures
        chunk.x == chunk_axis(world_position.x as int),
        chunk.y == chunk_axis(world_position.y as int),
        chunk.z == chunk_axis(world_position.z as int),
{
    ChunkPosition {
        x: floor_div(world_position.x),
        y: floor_div(world_position.y),
        z: floor_div(world_position.z),
    }
}

/// The cell of a voxel inside the chunk that holds it: always an interior
/// cell, `1..=REAL_CHUNK_SIZE` on each axis.
pub fn world_position_to_position_in_chunk(world_position: WorldPosition) -> (cell: [u32; 3])
    ensures
        cell[0] == cell_axis(world_position.x as int),
        cell[1] == cell_axis(world_position.y as int),
        cell[2] == cell_axis(world_position.z as int),
        1 <= cell[0] <= REAL_CHUNK_SIZE,
        1 <= cell[1] <= REAL_CHUNK_SIZE,
        1 <= cell[2] <= REAL_CHUNK_SIZE,
{
    [
        floor_rem(world_position.x) + 1,
        floor_rem(world_position.y) + 1,
        floor_rem(world_position.z) + 1,
    ]
}

/// The world coordinate of a cell coordinate, along one axis.
pub fn to_world_position(value: u32, chunk_position_axis: i32) -> (w: i32)
    requires
        i32::MIN <= world_axis(value as int, chunk_position_axis as int) <= i32::MAX,
    ensures
        w == world_axis(value as int, chunk_position_axis as int),
{
    let wide: i64 = value as i64 - 1 + chunk_position_axis as i64 * 32;
    wide as i32
}

/// Chunk coordinates of voxels stay well inside the machine integers.
pub proof fn lemma_chunk_axis_bounds(v: i32)
    ensures
        -67108864 <= chunk_axis(v as int) <= 67108863,
{
}

/// A world coordinate is found again in the chunk and cell it maps to.
pub proof fn lemma_world_axis_round_trip(v: int)
    ensures
        world_axis(cell_axis(v), chunk_axis(v)) == v,
        1 <= cell_axis(v) <= REAL_CHUNK_SIZE,
{
}

/// An interior cell of a chunk maps to a voxel that maps back to that chunk
/// and cell.
pub proof fn lemma_cell_round_trip(value: int, chunk: int)
    requires
        1 <= value <= REAL_CHUNK_SIZE,
    ensures
        chunk_axis(world_axis(value, chunk)) == chunk,
        cell_axis(world_axis(value, chunk)) == value,
{
}

} // verus!
