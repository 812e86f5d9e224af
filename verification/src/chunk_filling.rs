//! Terrain: which material the untouched world has at each voxel.

use crate::chunk::Chunk;
use crate::chunk::Cube;
use crate::items::Items;
use crate::lighting::MIN_LIGHT_LEVEL;
use crate::positions::ChunkPosition;
use crate::positions::WorldPosition;
use crate::structures::generate_tree;
use crate::structures::Pending;
use crate::structures::TREE_EDITS;
use crate::structures::tree_handed_in;
use vstd::prelude::*;

verus! {

/// One in the unit of noise samples.
pub const NOISE_UNIT: i32 = 65536;

/// From this height down the world is rock with caverns; above it, ground
/// under open sky.
pub const DEEP_HEIGHT: i32 = 0;

/// The noise field over one column of the world, in 65536ths.
#[derive(Clone, Copy, Debug, PartialEq, Eq, Structural)]
pub struct ColumnSample {
    /// Decides how high the ground stands.
    pub height: i32,
    /// Decides whether trees grow around here.
    pub tree_density: i32,
    /// Decides whether a tree grows on this very column.
    pub tree_chance: i32,
}

/// The noise field as sampled over the footprint of one chunk, halo
/// included, from the chunk's lowest row upwards.
pub struct ChunkFilling {
    /// The voxel of the footprint's lowest corner.
    pub origin: WorldPosition,
    /// How many rows from the origin upwards were sampled.
    pub rows: u32,
    /// One sample for each column, the column `(x, z)` from the origin at
    /// `x + 34 * z`.
    pub columns: Vec<ColumnSample>,
    /// The density of the rock at each voxel, in 65536ths, the voxel
    /// `(x, y, z)` from the origin at `x + 34 * z + 1156 * y`.
    pub caverns: Vec<i32>,
}

/// Samples as what they hold.
pub struct FillingView {
    pub origin: WorldPosition,
    pub rows: u32,
    pub columns: Seq<ColumnSample>,
    pub caverns: Seq<i32>,
}

impl View for ChunkFilling {
    type V = FillingView;

    open spec fn view(&self) -> FillingView {
        FillingView {
            origin: self.origin,
            rows: self.rows,
            columns: self.columns@,
            caverns: self.caverns@,
        }
    }
}

/// Samples of nothing.
pub open spec fn no_samples() -> FillingView {
    FillingView {
        origin: WorldPosition { x: 0, y: 0, z: 0 },
        rows: 0,
        columns: Seq::empty(),
        caverns: Seq::empty(),
    }
}

/// The height of the ground over a column, in 65536ths of a voxel.
pub open spec fn ground_height(sample: ColumnSample) -> int {
    sample.height * 16 + 16 * NOISE_UNIT
}

/// The material above `DEEP_HEIGHT`, at height `y` of a column: sand below
/// the ground's height, air from there on.
pub open spec fn surface_block(y: int, sample: ColumnSample) -> u16 {
    if y * NOISE_UNIT < ground_height(sample) {
        7
    } else {
        0
    }
}

/// Whether a tree stands at height `y` of a column: on the first voxel of
/// air, where both of the column's tree samples are high.
pub open spec fn tree_grows(y: int, sample: ColumnSample) -> bool {
    &&& y > DEEP_HEIGHT
    &&& ground_height(sample) <= y * NOISE_UNIT < ground_height(sample) + NOISE_UNIT
    &&& sample.tree_density > NOISE_UNIT / 4
    &&& sample.tree_chance > NOISE_UNIT / 2
}

/// The material from `DEEP_HEIGHT` down: air where the rock is thin, stone
/// elsewhere.
pub open spec fn cavern_block(density: i32) -> u16 {
    if density > NOISE_UNIT / 2 {
        0
    } else {
        3
    }
}

/// The material of the untouched world at height `y`, from the samples of
/// its column and of the voxel itself.
pub open spec fn terrain_block(y: int, sample: ColumnSample, density: i32) -> u16 {
    if y <= DEEP_HEIGHT {
        cavern_block(density)
    } else {
        surface_block(y, sample)
    }
}

/// The material of the untouched world at height `y`, from the samples of
/// its column and of the voxel itself, and whether a tree stands there. The
/// same height and samples give the same answer, whenever and wherever it is
/// asked.
pub fn terrain(y: i32, sample: ColumnSample, density: i32) -> (found: (u16, bool))
    ensures
        found.0 == terrain_block(y as int, sample, density),
        found.1 == tree_grows(y as int, sample),
        found.0 < crate::items::ITEM_COUNT,
{
    if y <= DEEP_HEIGHT {
        if density > NOISE_UNIT / 2 {
            (Items::Air.id(), false)
        } else {
            (Items::Stone.id(), false)
        }
    } else {
        let ground: i64 = sample.height as i64 * 16 + 16 * (NOISE_UNIT as i64);
        let at: i64 = y as i64 * (NOISE_UNIT as i64);
        if at < ground {
            (Items::Sand.id(), false)
        } else {
            (
                Items::Air.id(),
                at < ground + NOISE_UNIT as i64 && sample.tree_density > NOISE_UNIT / 4
                    && sample.tree_chance > NOISE_UNIT / 2,
            )
        }
    }
}

/// Terrain is decided by the samples alone: two sets of samples that hold
/// the same have the same material and the same cube at every voxel that
/// they reach, and a tree on the same voxels. So the cube that `fill_block`
/// returns is the same whenever it is asked for, whichever chunk it is asked
/// through and whether or not structures are generated.
pub proof fn lemma_terrain_is_decided(one: ChunkFilling, other: ChunkFilling, world_position: WorldPosition)
    requires
        one@ == other@,
        one.covers(world_position),
    ensures
        other.covers(world_position),
        one.block_at(world_position) == other.block_at(world_position),
        one.cube_at(world_position) == other.cube_at(world_position),
        one.tree_at(world_position) == other.tree_at(world_position),
{
}

impl ChunkFilling {
    /// Whether the samples reach the voxel at `world_position`.
    pub open spec fn covers(&self, world_position: WorldPosition) -> bool {
        &&& self.columns@.len() == 1156
        &&& self.caverns@.len() == 1156 * self.rows
        &&& self.origin.x <= world_position.x < self.origin.x + 34
        &&& self.origin.y <= world_position.y < self.origin.y + self.rows
        &&& self.origin.z <= world_position.z < self.origin.z + 34
    }

    /// Whether the samples reach every cell of the chunk at `position`, halo
    /// included, starting from its lower halo.
    pub open spec fn covers_chunk(&self, position: ChunkPosition) -> bool {
        &&& self.columns@.len() == 1156
        &&& self.caverns@.len() == 1156 * self.rows
        &&& self.origin.x == 32 * position.x - 1
        &&& self.origin.y == 32 * position.y - 1
        &&& self.origin.z == 32 * position.z - 1
        &&& self.rows >= 34
    }

    /// The height of the first row above the samples.
    pub open spec fn top(&self) -> int {
        self.origin.y + self.rows
    }

    /// The sample of the column of a voxel that the samples reach.
    pub open spec fn column_at(&self, world_position: WorldPosition) -> ColumnSample {
        self.columns@[(world_position.x - self.origin.x) + 34 * (world_position.z - self.origin.z)]
    }

    /// The density at a voxel that the samples reach.
    pub open spec fn density_at(&self, world_position: WorldPosition) -> i32 {
        self.caverns@[(world_position.x - self.origin.x) + 34 * (world_position.z - self.origin.z)
            + 1156 * (world_position.y - self.origin.y)]
    }

    /// The material of the untouched world at a voxel that the samples
    /// reach.
    pub open spec fn block_at(&self, world_position: WorldPosition) -> u16 {
        terrain_block(
            world_position.y as int,
            self.column_at(world_position),
            self.density_at(world_position),
        )
    }

    /// The cube of the untouched world at a voxel that the samples reach: its
    /// material, in the least light.
    pub open spec fn cube_at(&self, world_position: WorldPosition) -> Cube {
        Cube {
            id: self.block_at(world_position),
            natural_light_level: MIN_LIGHT_LEVEL,
            items_light_level: 0,
        }
    }

    /// Whether a tree stands on a voxel that the samples reach.
    pub open spec fn tree_at(&self, world_position: WorldPosition) -> bool {
        tree_grows(world_position.y as int, self.column_at(world_position))
    }

    /// Samples of nothing.
    pub fn new() -> (filling: Self)
        ensures
            filling@ == no_samples(),
            filling.rows == 0,
            filling.columns@.len() == 0,
            filling.caverns@.len() == 0,
            forall|world_position: WorldPosition| !filling.covers(world_position),
    {
        let filling = ChunkFilling {
            origin: WorldPosition { x: 0, y: 0, z: 0 },
            rows: 0,
            columns: Vec::new(),
            caverns: Vec::new(),
        };
        proof {
            assert(filling.columns@ =~= Seq::<ColumnSample>::empty());
            assert(filling.caverns@ =~= Seq::<i32>::empty());
        }
        filling
    }

    /// The samples over the footprint of the chunk at `position`, `rows`
    /// rows high from the chunk's lower halo: `None` unless the chunk lies in
    /// the world and there is a sample for each column and each voxel.
    pub fn sampled(position: ChunkPosition, rows: u32, columns: Vec<ColumnSample>, caverns: Vec<i32>) -> (filling:
        Option<Self>)
        ensures
            filling is Some <==> position.in_world() && rows <= 1048576 && columns@.len() == 1156
                && caverns@.len() == 1156 * rows,
            filling matches Some(f) ==> f.origin == (WorldPosition {
                x: (32 * position.x - 1) as i32,
                y: (32 * position.y - 1) as i32,
                z: (32 * position.z - 1) as i32,
            }) && f.rows == rows && f.columns == columns && f.caverns == caverns,
    {
        if !position.is_in_world() || rows > 1048576 || columns.len() != 1156 || caverns.len() as u64
            != 1156 * (rows as u64) {
            return None;
        }
        Some(
            ChunkFilling {
                origin: WorldPosition {
                    x: 32 * position.x - 1,
                    y: 32 * position.y - 1,
                    z: 32 * position.z - 1,
                },
                rows,
                columns,
                caverns,
            },
        )
    }

    /// Decides `covers_chunk` for a chunk in the world.
    pub fn reaches_chunk(&self, position: ChunkPosition) -> (b: bool)
        requires
            position.in_world(),
        ensures
            b == self.covers_chunk(position),
    {
        self.columns.len() == 1156 && self.caverns.len() as u64 == 1156 * (self.rows as u64)
            && self.origin.x == 32 * position.x - 1 && self.origin.y == 32 * position.y - 1
            && self.origin.z == 32 * position.z - 1 && self.rows >= 34
    }

    /// Decides `covers`.
    pub fn reaches(&self, world_position: WorldPosition) -> (b: bool)
        ensures
            b == self.covers(world_position),
    {
        self.columns.len() == 1156 && self.caverns.len() as u64 == 1156 * (self.rows as u64)
            && self.origin.x as i64 <= world_position.x as i64 && (world_position.x as i64)
            < self.origin.x as i64 + 34 && self.origin.y as i64 <= world_position.y as i64 && (
        world_position.y as i64) < self.origin.y as i64 + self.rows as i64 && self.origin.z as i64
            <= world_position.z as i64 && (world_position.z as i64) < self.origin.z as i64 + 34
    }

    /// The material of the untouched world at a voxel, and whether a tree
    /// stands on it.
    pub fn sample(&self, world_position: WorldPosition) -> (found: (u16, bool))
        requires
            self.covers(world_position),
        ensures
            found.0 == self.block_at(world_position),
            found.1 == self.tree_at(world_position),
            found.0 < crate::items::ITEM_COUNT,
    {
        let dx = (world_position.x as i64 - self.origin.x as i64) as usize;
        let dy = (world_position.y as i64 - self.origin.y as i64) as usize;
        let dz = (world_position.z as i64 - self.origin.z as i64) as usize;
        let column = self.columns[dx + 34 * dz];
        let samples = self.caverns.len();
        assert(dx + 34 * dz + 1156 * dy < samples);
        let density = self.caverns[dx + 34 * dz + 1156 * dy];
        terrain(world_position.y, column, density)
    }

    /// The cube that the untouched world has at a voxel: its material, in
    /// the least light. With `generate_structure`, a tree that stands on the
    /// voxel is planted through `current_chunk`.
    pub fn fill_block(&self, world_position: WorldPosition, current_chunk: &mut Chunk, generate_structure: bool) -> (cube:
        Cube)
        requires
            self.covers(world_position),
            old(current_chunk).wf(),
            generate_structure && self.tree_at(world_position) ==> crate::structures::tree_fits(
                world_position,
            ),
        ensures
            cube == self.cube_at(world_position),
            cube.id < crate::items::ITEM_COUNT,
            final(current_chunk).wf(),
            (Pending {
                own: final(current_chunk).modifications@,
                abroad: final(current_chunk).other_chunks_modifications@,
            }) == (if generate_structure && self.tree_at(world_position) {
                tree_handed_in(
                    Pending {
                        own: old(current_chunk).modifications@,
                        abroad: old(current_chunk).other_chunks_modifications@,
                    },
                    old(current_chunk).position,
                    world_position,
                    TREE_EDITS as nat,
                )
            } else {
                Pending {
                    own: old(current_chunk).modifications@,
                    abroad: old(current_chunk).other_chunks_modifications@,
                }
            }),
            *final(current_chunk) == (Chunk {
                modifications: final(current_chunk).modifications,
                other_chunks_modifications: final(current_chunk).other_chunks_modifications,
                ..*old(current_chunk)
            }),
    {
        let (id, tree) = self.sample(world_position);
        if generate_structure && tree {
            generate_tree(world_position, current_chunk);
        }
        Cube { id, natural_light_level: MIN_LIGHT_LEVEL, items_light_level: 0 }
    }
}

} // verus!
