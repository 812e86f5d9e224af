//! Sky light cast down each column, and its spread to the sides.

use crate::chunk::Chunk;
use crate::chunk::Cube;
use crate::chunk::has_neighbours;
use crate::chunk_filling::ChunkFilling;
use crate::items::item;
use crate::items::item_is_transparent;
use crate::items::item_light_multiplier;
use crate::positions::CHUNK_SIZE;
use crate::positions::ChunkPosition;
use crate::positions::to_world_position;
use crate::positions::world_axis;
use crate::positions::world_position_to_chunk_position;
use crate::positions::world_position_to_position_in_chunk;
use crate::positions::WorldPosition;
use crate::shape::cell_index;
use crate::shape::cell_x;
use crate::shape::cell_y;
use crate::shape::cell_z;
use crate::shape::lemma_cell_index_inverse;
use crate::shape::CHUNK_VOLUME;
use crate::shape::in_grid;
use crate::shape::linearize;
use crate::sky::column_key;
use crate::structures::cell_of;
use crate::structures::chunk_of;
use crate::world::chunk_key;
use crate::world::chunks_valid;
use crate::world::key_of_chunk;
use crate::world::World;
use std::collections::HashMap;
use vstd::prelude::*;

verus! {

/// The light that every cell has at least.
pub const MIN_LIGHT_LEVEL: u8 = 5;

/// What light loses with each step to the side.
pub const DIFFUSE_ATTENUATION: u8 = 10;

/// From this chunk height down no sky light arrives.
pub const PROFOUND_CHUNK: i32 = -4;

/// One level of light in the unit in which a ray's light is kept.
pub const LIGHT_UNIT: u32 = 65536;

/// The light of the open sky, in `LIGHT_UNIT`s.
pub const FULL_LIGHT: u32 = 16711680;

/// A pending raise of one cell's sky light.
#[derive(Clone, Copy, Debug, PartialEq, Eq, Structural)]
pub struct NaturalLightModification {
    pub light_level: u8,
    pub position: usize,
}

/// What spreading light changes: the grid, and the raises that wait to be
/// handed to other chunks.
pub struct Glow {
    pub cubes: Seq<Cube>,
    pub abroad: Seq<(NaturalLightModification, ChunkPosition)>,
}

/// Light of level `level` after it entered a voxel of material `id`.
pub open spec fn attenuated(level: u8, id: u16) -> u8 {
    (level * item_light_multiplier(id) / 10) as u8
}

/// A material lets through no more light than arrives.
pub proof fn lemma_attenuated_le(level: u8, id: u16)
    ensures
        attenuated(level, id) <= level,
        attenuated(level, id) == level * item_light_multiplier(id) / 10,
{
    let m = item_light_multiplier(id) as int;
    assert(0 <= m <= 10);
    assert(0 <= level * m <= level * 10) by (nonlinear_arith)
        requires
            0 <= m <= 10,
            0 <= level,
    ;
}

/// The grid with the sky light of the cell at `i` raised to `level`, if it
/// was lower.
pub open spec fn raised_light(cubes: Seq<Cube>, i: int, level: u8) -> Seq<Cube> {
    if cubes[i].natural_light_level < level {
        cubes.update(
            i,
            Cube {
                id: cubes[i].id,
                natural_light_level: level,
                items_light_level: cubes[i].items_light_level,
            },
        )
    } else {
        cubes
    }
}

/// The cell next to `(x, y, z)` in direction `dir`: 0 and 1 are one down and
/// one up along x, 2 and 3 along y, 4 and 5 along z.
pub open spec fn beside(x: int, y: int, z: int, dir: int) -> (int, int, int) {
    (
        if dir == 0 { x - 1 } else if dir == 1 { x + 1 } else { x },
        if dir == 2 { y - 1 } else if dir == 3 { y + 1 } else { y },
        if dir == 4 { z - 1 } else if dir == 5 { z + 1 } else { z },
    )
}

/// The coordinate of `(x, y, z)` along the axis of direction `dir`.
pub open spec fn along(x: int, y: int, z: int, dir: int) -> int {
    if dir < 2 { x } else if dir < 4 { y } else { z }
}

/// Whether the cell beside `(x, y, z)` in direction `dir` is on the grid.
pub open spec fn has_beside(x: int, y: int, z: int, dir: int) -> bool {
    if dir % 2 == 0 { along(x, y, z, dir) > 0 } else { along(x, y, z, dir) < 33 }
}

/// Whether `(x, y, z)` is the last interior cell in direction `dir`, so that
/// light leaving it that way reaches the neighbouring chunk.
pub open spec fn at_seam(x: int, y: int, z: int, dir: int) -> bool {
    if dir % 2 == 0 { along(x, y, z, dir) == 1 } else { along(x, y, z, dir) == 32 }
}

/// The raise that light of level `level`, leaving the chunk at `chunk` from
/// `(x, y, z)` in direction `dir`, asks of the neighbouring chunk: it names
/// the cell at the far end of that chunk's grid.
pub open spec fn handed_on(chunk: ChunkPosition, x: int, y: int, z: int, dir: int, level: u8) -> (
    NaturalLightModification,
    ChunkPosition,
) {
    let to = if dir % 2 == 0 { 33 } else { 0 };
    (
        NaturalLightModification {
            light_level: level,
            position: cell_index(
                if dir < 2 { to } else { x },
                if 2 <= dir < 4 { to } else { y },
                if 4 <= dir { to } else { z },
            ) as usize,
        },
        chunk.step(dir / 2, if dir % 2 == 0 { -1 } else { 1 }),
    )
}

/// The state after light of level `level` left `(x, y, z)` in direction
/// `dir`: it spreads into the cell beside, if the grid has one, and it is
/// handed on to the neighbouring chunk, if it leaves the interior.
pub open spec fn diffuse_towards(
    state: Glow,
    chunk: ChunkPosition,
    x: int,
    y: int,
    z: int,
    dir: int,
    level: u8,
) -> Glow
    decreases level, 1int,
{
    let entered = if has_beside(x, y, z, dir) {
        let to = beside(x, y, z, dir);
        diffuse(state, chunk, to.0, to.1, to.2, level, false)
    } else {
        state
    };
    if at_seam(x, y, z, dir) {
        Glow { cubes: entered.cubes, abroad: entered.abroad.push(handed_on(chunk, x, y, z, dir, level)) }
    } else {
        entered
    }
}

/// The state after light of level `parent_light` arrived at `(x, y, z)`. What
/// the cell's material lets through is the light the cell can take. It takes
/// it if that is more than the least light, the material is transparent, and
/// the cell is darker than that or is the `first` of the spread; its light is
/// raised, never lowered. If at least `DIFFUSE_ATTENUATION` was taken, the
/// light goes on, weaker by that much, in the six directions in turn.
pub open spec fn diffuse(
    state: Glow,
    chunk: ChunkPosition,
    x: int,
    y: int,
    z: int,
    parent_light: u8,
    first: bool,
) -> Glow
    decreases parent_light, 0int,
{
    let i = cell_index(x, y, z);
    let light = attenuated(parent_light, state.cubes[i].id);
    if (state.cubes[i].natural_light_level < light || first) && light > MIN_LIGHT_LEVEL
        && item_is_transparent(state.cubes[i].id) {
        let lit = Glow { cubes: raised_light(state.cubes, i, light), abroad: state.abroad };
        if DIFFUSE_ATTENUATION > light {
            lit
        } else {
            proof {
                lemma_attenuated_le(parent_light, state.cubes[i].id);
            }
            let next = (light - DIFFUSE_ATTENUATION) as u8;
            diffuse_towards(
                diffuse_towards(
                    diffuse_towards(
                        diffuse_towards(
                            diffuse_towards(
                                diffuse_towards(lit, chunk, x, y, z, 0, next),
                                chunk,
                                x,
                                y,
                                z,
                                1,
                                next,
                            ),
                            chunk,
                            x,
                            y,
                            z,
                            2,
                            next,
                        ),
                        chunk,
                        x,
                        y,
                        z,
                        3,
                        next,
                    ),
                    chunk,
                    x,
                    y,
                    z,
                    4,
                    next,
                ),
                chunk,
                x,
                y,
                z,
                5,
                next,
            )
        }
    } else {
        state
    }
}

/// Whether `after` is `before` with nothing changed but sky light, and that
/// nowhere lowered.
pub open spec fn brightened(before: Seq<Cube>, after: Seq<Cube>) -> bool {
    &&& after.len() == before.len()
    &&& forall|i: int|
        0 <= i < before.len() ==> (#[trigger] after[i]).id == before[i].id && after[i].items_light_level
            == before[i].items_light_level && after[i].natural_light_level
            >= before[i].natural_light_level
}

/// Whether light of level `level` arriving at the cell at `i` would find it
/// bright enough already, or closed to it.
pub open spec fn settled(cubes: Seq<Cube>, i: int, level: u8) -> bool {
    let light = attenuated(level, cubes[i].id);
    !(cubes[i].natural_light_level < light && light > MIN_LIGHT_LEVEL && item_is_transparent(
        cubes[i].id,
    ))
}

/// The six steps that follow the taking of light at a cell.
pub open spec fn diffuse_around(state: Glow, chunk: ChunkPosition, x: int, y: int, z: int, level: u8, n: nat) -> Glow
    decreases n,
{
    if n == 0 {
        state
    } else {
        diffuse_towards(
            diffuse_around(state, chunk, x, y, z, level, (n - 1) as nat),
            chunk,
            x,
            y,
            z,
            n - 1,
            level,
        )
    }
}

proof fn lemma_diffuse_around_unfold(state: Glow, chunk: ChunkPosition, x: int, y: int, z: int, level: u8)
    ensures
        diffuse_around(state, chunk, x, y, z, level, 6) == diffuse_towards(
            diffuse_towards(
                diffuse_towards(
                    diffuse_towards(
                        diffuse_towards(
                            diffuse_towards(state, chunk, x, y, z, 0, level),
                            chunk,
                            x,
                            y,
                            z,
                            1,
                            level,
                        ),
                        chunk,
                        x,
                        y,
                        z,
                        2,
                        level,
                    ),
                    chunk,
                    x,
                    y,
                    z,
                    3,
                    level,
                ),
                chunk,
                x,
                y,
                z,
                4,
                level,
            ),
            chunk,
            x,
            y,
            z,
            5,
            level,
        ),
{
    reveal_with_fuel(diffuse_around, 7);
}

/// Spreading light changes nothing but sky light and lowers none, and
/// leaves the cell it arrived at settled for that light.
pub proof fn lemma_diffuse_brightens(
    state: Glow,
    chunk: ChunkPosition,
    x: int,
    y: int,
    z: int,
    parent_light: u8,
    first: bool,
)
    requires
        in_grid(x, y, z),
        state.cubes.len() == crate::shape::CHUNK_VOLUME,
    ensures
        brightened(state.cubes, diffuse(state, chunk, x, y, z, parent_light, first).cubes),
        settled(
            diffuse(state, chunk, x, y, z, parent_light, first).cubes,
            cell_index(x, y, z),
            parent_light,
        ),
    decreases parent_light, 0int, 0int,
{
    let i = cell_index(x, y, z);
    let light = attenuated(parent_light, state.cubes[i].id);
    if (state.cubes[i].natural_light_level < light || first) && light > MIN_LIGHT_LEVEL
        && item_is_transparent(state.cubes[i].id) {
        let lit = Glow { cubes: raised_light(state.cubes, i, light), abroad: state.abroad };
        assert(brightened(state.cubes, lit.cubes));
        if DIFFUSE_ATTENUATION <= light {
            lemma_attenuated_le(parent_light, state.cubes[i].id);
            let next = (light - DIFFUSE_ATTENUATION) as u8;
            lemma_diffuse_around_unfold(lit, chunk, x, y, z, next);
            lemma_diffuse_around_brightens(lit, chunk, x, y, z, next, 6);
        }
    }
}

/// The steps around a cell change nothing but sky light and lower none.
pub proof fn lemma_diffuse_around_brightens(
    state: Glow,
    chunk: ChunkPosition,
    x: int,
    y: int,
    z: int,
    level: u8,
    n: nat,
)
    requires
        in_grid(x, y, z),
        state.cubes.len() == crate::shape::CHUNK_VOLUME,
        n <= 6,
    ensures
        brightened(state.cubes, diffuse_around(state, chunk, x, y, z, level, n).cubes),
        forall|d: int|
            0 <= d < n && has_beside(x, y, z, d) ==> settled(
                diffuse_around(state, chunk, x, y, z, level, n).cubes,
                #[trigger] beside_index(x, y, z, d),
                level,
            ),
    decreases level, 1int, n,
{
    if n > 0 {
        let before = diffuse_around(state, chunk, x, y, z, level, (n - 1) as nat);
        lemma_diffuse_around_brightens(state, chunk, x, y, z, level, (n - 1) as nat);
        let after = diffuse_towards(before, chunk, x, y, z, n - 1, level);
        if has_beside(x, y, z, n - 1) {
            let to = beside(x, y, z, n - 1);
            lemma_diffuse_brightens(before, chunk, to.0, to.1, to.2, level, false);
        }
        assert(brightened(before.cubes, after.cubes));
        assert forall|d: int| 0 <= d < n && has_beside(x, y, z, d) implies settled(
            after.cubes,
            #[trigger] beside_index(x, y, z, d),
            level,
        ) by {
            if d < n - 1 {
                lemma_settled_stays(before.cubes, after.cubes, beside_index(x, y, z, d), level);
            }
        }
    }
}

/// The index of the cell beside `(x, y, z)` in direction `dir`.
pub open spec fn beside_index(x: int, y: int, z: int, dir: int) -> int {
    cell_index(beside(x, y, z, dir).0, beside(x, y, z, dir).1, beside(x, y, z, dir).2)
}

/// A settled cell stays settled while light is only raised.
pub proof fn lemma_settled_stays(before: Seq<Cube>, after: Seq<Cube>, i: int, level: u8)
    requires
        brightened(before, after),
        0 <= i < before.len(),
        settled(before, i, level),
    ensures
        settled(after, i, level),
{
}

/// Where every cell around is settled, the steps around a cell leave the
/// grid as it is.
pub proof fn lemma_diffuse_around_settled(
    state: Glow,
    chunk: ChunkPosition,
    x: int,
    y: int,
    z: int,
    level: u8,
    n: nat,
)
    requires
        in_grid(x, y, z),
        n <= 6,
        forall|d: int|
            0 <= d < n && has_beside(x, y, z, d) ==> settled(
                state.cubes,
                #[trigger] beside_index(x, y, z, d),
                level,
            ),
    ensures
        diffuse_around(state, chunk, x, y, z, level, n).cubes == state.cubes,
    decreases n,
{
    if n > 0 {
        lemma_diffuse_around_settled(state, chunk, x, y, z, level, (n - 1) as nat);
        let before = diffuse_around(state, chunk, x, y, z, level, (n - 1) as nat);
        if has_beside(x, y, z, n - 1) {
            assert(settled(before.cubes, beside_index(x, y, z, n - 1), level));
        }
    }
}

/// Light never lowers light: whatever arrives wherever, every cell is
/// afterwards at least as bright as before, and nothing else of it changed.
pub proof fn lemma_diffuse_never_lowers(
    state: Glow,
    chunk: ChunkPosition,
    x: int,
    y: int,
    z: int,
    parent_light: u8,
    first: bool,
)
    requires
        in_grid(x, y, z),
        state.cubes.len() == crate::shape::CHUNK_VOLUME,
    ensures
        brightened(state.cubes, diffuse(state, chunk, x, y, z, parent_light, first).cubes),
{
    lemma_diffuse_brightens(state, chunk, x, y, z, parent_light, first);
}

/// Spreading the same light from the same cell a second time leaves the grid
/// as the first time left it.
#[verifier::rlimit(40)]
pub proof fn lemma_diffuse_idempotent(
    state: Glow,
    chunk: ChunkPosition,
    x: int,
    y: int,
    z: int,
    parent_light: u8,
    first: bool,
)
    requires
        in_grid(x, y, z),
        state.cubes.len() == crate::shape::CHUNK_VOLUME,
    ensures
        diffuse(
            diffuse(state, chunk, x, y, z, parent_light, first),
            chunk,
            x,
            y,
            z,
            parent_light,
            first,
        ).cubes == diffuse(state, chunk, x, y, z, parent_light, first).cubes,
{
    let once = diffuse(state, chunk, x, y, z, parent_light, first);
    lemma_diffuse_brightens(state, chunk, x, y, z, parent_light, first);
    let i = cell_index(x, y, z);
    let light = attenuated(parent_light, state.cubes[i].id);
    assert(once.cubes[i].id == state.cubes[i].id);
    if first && light > MIN_LIGHT_LEVEL && item_is_transparent(state.cubes[i].id) {
        let lit = Glow { cubes: raised_light(state.cubes, i, light), abroad: state.abroad };
        let again = Glow { cubes: raised_light(once.cubes, i, light), abroad: once.abroad };
        assert(again.cubes == once.cubes);
        if DIFFUSE_ATTENUATION <= light {
            lemma_attenuated_le(parent_light, state.cubes[i].id);
            let next = (light - DIFFUSE_ATTENUATION) as u8;
            lemma_diffuse_around_unfold(lit, chunk, x, y, z, next);
            lemma_diffuse_around_unfold(again, chunk, x, y, z, next);
            lemma_diffuse_around_brightens(lit, chunk, x, y, z, next, 6);
            lemma_diffuse_around_settled(again, chunk, x, y, z, next, 6);
        }
    }
}

/// The grid with the sky light of the cell `(x, y, z)` set to `level`.
pub open spec fn with_light(cubes: Seq<Cube>, x: int, y: int, z: int, level: u8) -> Seq<Cube> {
    cubes.update(
        cell_index(x, y, z),
        Cube {
            id: cubes[cell_index(x, y, z)].id,
            natural_light_level: level,
            items_light_level: cubes[cell_index(x, y, z)].items_light_level,
        },
    )
}

/// The grid with the least light in the first `n` interior rows of the
/// column `(x, z)`.
pub open spec fn no_light_rows(cubes: Seq<Cube>, x: int, z: int, n: nat) -> Seq<Cube>
    decreases n,
{
    if n == 0 {
        cubes
    } else {
        with_light(no_light_rows(cubes, x, z, (n - 1) as nat), x, n as int, z, MIN_LIGHT_LEVEL)
    }
}

/// The grid with the least light in every interior row of the column
/// `(x, z)`.
pub open spec fn no_light(cubes: Seq<Cube>, x: int, z: int) -> Seq<Cube> {
    no_light_rows(cubes, x, z, 32)
}

/// The material that a ray of the chunk at `position` finds at a voxel: what
/// the chunk's own grid `cubes` holds if the voxel is the chunk's; what
/// another chunk's grid holds if that chunk is there and filled; what the
/// untouched world has there, by the chunk's samples, otherwise.
pub open spec fn seen_block(
    cubes: Seq<Cube>,
    position: ChunkPosition,
    filling: ChunkFilling,
    others: Map<u128, Chunk>,
    world_position: WorldPosition,
) -> u16 {
    let target = chunk_of(world_position);
    if target == position {
        cubes[cell_of(world_position)].id
    } else if others.contains_key(chunk_key(target)) && others[chunk_key(target)].filled {
        others[chunk_key(target)].cubes@[cell_of(world_position)].id
    } else {
        filling.block_at(world_position)
    }
}

/// A ray's light after it passed a voxel of material `id`, in `LIGHT_UNIT`s.
pub open spec fn dimmed(level: int, id: u16) -> int {
    level * item_light_multiplier(id) / 10
}

/// The light that a cell takes from a ray: the ray's light in whole levels,
/// but no less than the least light.
pub open spec fn taken_light(light: int) -> u8 {
    if light / (LIGHT_UNIT as int) < MIN_LIGHT_LEVEL {
        MIN_LIGHT_LEVEL
    } else {
        (light / (LIGHT_UNIT as int)) as u8
    }
}

/// The grid after the ray of the column `(x, z)` went down from height `h`
/// to the chunk's lowest interior row, arriving at `h` with light `level`.
/// At each voxel the light is dimmed by what the ray finds there. In the
/// chunk's own rows the cell takes the light, but no less than the least
/// light. In the row above them the upper halo takes it, unless it is under
/// the least light: then the column is dark. Higher up nothing is written,
/// and once the light is down to the least the ray ends and the column is
/// dark. So every interior cell of the column ends with the least light at
/// least.
pub open spec fn cast(
    cubes: Seq<Cube>,
    position: ChunkPosition,
    terrain: ChunkFilling,
    others: Map<u128, Chunk>,
    x: int,
    z: int,
    h: int,
    level: int,
) -> Seq<Cube>
    decreases h - 32 * position.y + 1,
{
    let cy = position.y as int;
    if h < 32 * cy {
        cubes
    } else {
        let at = WorldPosition {
            x: world_axis(x, position.x as int) as i32,
            y: h as i32,
            z: world_axis(z, position.z as int) as i32,
        };
        let light = dimmed(level, seen_block(cubes, position, terrain, others, at));
        if h < 32 * cy + 32 {
            cast(
                with_light(cubes, x, h - 32 * cy + 1, z, taken_light(light)),
                position,
                terrain,
                others,
                x,
                z,
                h - 1,
                light,
            )
        } else if h == 32 * cy + 32 {
            if light < MIN_LIGHT_LEVEL * LIGHT_UNIT {
                no_light(cubes, x, z)
            } else {
                cast(
                    with_light(cubes, x, 33, z, (light / (LIGHT_UNIT as int)) as u8),
                    position,
                    terrain,
                    others,
                    x,
                    z,
                    h - 1,
                    light,
                )
            }
        } else if light <= MIN_LIGHT_LEVEL * LIGHT_UNIT {
            no_light(cubes, x, z)
        } else {
            cast(cubes, position, terrain, others, x, z, h - 1, light)
        }
    }
}

/// The grid after sky light was cast down the column `(x, z)` from the
/// height `sky_height`: all dark from `PROFOUND_CHUNK` down, the trace of a
/// ray of full light elsewhere.
pub open spec fn cast_column(
    cubes: Seq<Cube>,
    position: ChunkPosition,
    terrain: ChunkFilling,
    others: Map<u128, Chunk>,
    x: int,
    z: int,
    sky_height: int,
) -> Seq<Cube> {
    if position.y <= PROFOUND_CHUNK {
        no_light(cubes, x, z)
    } else {
        cast(cubes, position, terrain, others, x, z, sky_height - 1, FULL_LIGHT as int)
    }
}

/// The voxel at height `h` of the column `(x, z)` of the chunk at
/// `position`.
pub open spec fn ray_voxel(position: ChunkPosition, x: int, z: int, h: int) -> WorldPosition {
    WorldPosition {
        x: world_axis(x, position.x as int) as i32,
        y: h as i32,
        z: world_axis(z, position.z as int) as i32,
    }
}

/// Whether a ray of the chunk at `position` can find out what is at a
/// voxel: the voxel is the chunk's own, or another chunk's that is there and
/// filled, or the chunk's samples reach it.
pub open spec fn can_see(
    position: ChunkPosition,
    terrain: ChunkFilling,
    others: Map<u128, Chunk>,
    world_position: WorldPosition,
) -> bool {
    let target = chunk_of(world_position);
    ||| target == position
    ||| others.contains_key(chunk_key(target)) && others[chunk_key(target)].filled
    ||| terrain.covers(world_position)
}

/// Whether a ray can be cast down the column `(x, z)` of the chunk at
/// `position` from the height `sky_height`: it can see every voxel from
/// there down to the chunk's lowest interior row.
pub open spec fn ray_ready(
    position: ChunkPosition,
    terrain: ChunkFilling,
    others: Map<u128, Chunk>,
    x: int,
    z: int,
    sky_height: int,
) -> bool {
    forall|h: int|
        32 * position.y <= h < sky_height ==> can_see(
            position,
            terrain,
            others,
            #[trigger] ray_voxel(position, x, z, h),
        )
}

/// Whether the samples of a chunk reach every voxel over the chunk's
/// footprint from its lowest interior row up to, but not including, the
/// height `top`.
pub open spec fn terrain_reaches(filling: ChunkFilling, position: ChunkPosition, top: int) -> bool {
    &&& filling.columns@.len() == 1156
    &&& filling.caverns@.len() == 1156 * filling.rows
    &&& filling.origin.x == 32 * position.x - 1
    &&& filling.origin.y <= 32 * position.y
    &&& filling.origin.z == 32 * position.z - 1
    &&& top <= filling.origin.y + filling.rows
}

/// Samples that reach up to a height let a ray be cast from there.
pub proof fn lemma_terrain_reaches_is_ready(
    position: ChunkPosition,
    terrain: ChunkFilling,
    others: Map<u128, Chunk>,
    x: int,
    z: int,
    sky_height: int,
)
    requires
        position.in_world(),
        0 <= x < 34,
        0 <= z < 34,
        sky_height <= i32::MAX,
        terrain_reaches(terrain, position, sky_height),
    ensures
        ray_ready(position, terrain, others, x, z, sky_height),
{
    assert forall|h: int| 32 * position.y <= h < sky_height implies can_see(
        position,
        terrain,
        others,
        #[trigger] ray_voxel(position, x, z, h),
    ) by {
        assert(terrain.covers(ray_voxel(position, x, z, h)));
    }
}

fn set_natural_light(current_chunk: &mut Chunk, x: u32, y: u32, z: u32, level: u8)
    requires
        old(current_chunk).wf(),
        in_grid(x as int, y as int, z as int),
    ensures
        final(current_chunk).wf(),
        final(current_chunk).cubes@ == with_light(
            old(current_chunk).cubes@,
            x as int,
            y as int,
            z as int,
            level,
        ),
        *final(current_chunk) == (Chunk { cubes: final(current_chunk).cubes, ..*old(current_chunk) }),
{
    let i = linearize(x, y, z);
    let cube = current_chunk.cubes[i];
    current_chunk.cubes.set(
        i,
        Cube { id: cube.id, natural_light_level: level, items_light_level: cube.items_light_level },
    );
}

fn no_light_column(current_chunk: &mut Chunk, x: u32, z: u32)
    requires
        old(current_chunk).wf(),
        x < 34,
        z < 34,
    ensures
        final(current_chunk).wf(),
        final(current_chunk).cubes@ == no_light(old(current_chunk).cubes@, x as int, z as int),
        *final(current_chunk) == (Chunk { cubes: final(current_chunk).cubes, ..*old(current_chunk) }),
{
    let mut y: u32 = 1;
    while y < CHUNK_SIZE - 1
        invariant
            1 <= y <= CHUNK_SIZE - 1,
            x < 34,
            z < 34,
            current_chunk.wf(),
            current_chunk.cubes@ == no_light_rows(
                old(current_chunk).cubes@,
                x as int,
                z as int,
                (y - 1) as nat,
            ),
            *current_chunk == (Chunk { cubes: current_chunk.cubes, ..*old(current_chunk) }),
        decreases CHUNK_SIZE - 1 - y,
    {
        set_natural_light(current_chunk, x, y, z, MIN_LIGHT_LEVEL);
        y += 1;
    }
}

fn get_light_multiplier_at_world_position(
    current_chunk: &Chunk,
    world_position: WorldPosition,
    chunks: &HashMap<u128, Chunk>,
) -> (multiplier: u8)
    requires
        current_chunk.wf(),
        chunks_valid(chunks@),
        can_see(current_chunk.position, current_chunk.chunk_filling, chunks@, world_position),
    ensures
        multiplier == item_light_multiplier(
            seen_block(
                current_chunk.cubes@,
                current_chunk.position,
                current_chunk.chunk_filling,
                chunks@,
                world_position,
            ),
        ),
        multiplier <= 10,
{
    broadcast use vstd::std_specs::hash::group_hash_axioms;
    let chunk_position = world_position_to_chunk_position(world_position);
    let cell = world_position_to_position_in_chunk(world_position);
    let position_in_chunk = linearize(cell[0], cell[1], cell[2]);
    if current_chunk.position == chunk_position {
        return item(current_chunk.cubes[position_in_chunk].id).light_multiplier;
    }
    let key = key_of_chunk(chunk_position);
    if let Some(chunk) = chunks.get(&key) {
        if chunk.filled {
            return item(chunk.cubes[position_in_chunk].id).light_multiplier;
        }
    }
    let (id, _) = current_chunk.chunk_filling.sample(world_position);
    item(id).light_multiplier
}

fn dim(level: u32, multiplier: u8) -> (light: u32)
    requires
        level <= FULL_LIGHT,
        multiplier <= 10,
    ensures
        light == level * multiplier / 10,
        light <= level,
{
    assert(0 <= level * multiplier <= level * 10) by (nonlinear_arith)
        requires
            0 <= multiplier <= 10,
            0 <= level,
    ;
    level * (multiplier as u32) / 10
}

/// One voxel of a ray's way down: `Some` of the light it goes on with, or
/// `None` where the ray ends.
#[verifier::rlimit(40)]
fn cast_step(
    current_chunk: &mut Chunk,
    x: u32,
    z: u32,
    h: i32,
    level: u32,
    chunks: &HashMap<u128, Chunk>,
) -> (next: Option<u32>)
    requires
        old(current_chunk).wf(),
        old(current_chunk).position.in_world(),
        x < 34,
        z < 34,
        chunks_valid(chunks@),
        level <= FULL_LIGHT,
        32 * old(current_chunk).position.y <= h,
        can_see(
            old(current_chunk).position,
            old(current_chunk).chunk_filling,
            chunks@,
            ray_voxel(old(current_chunk).position, x as int, z as int, h as int),
        ),
    ensures
        final(current_chunk).wf(),
        *final(current_chunk) == (Chunk { cubes: final(current_chunk).cubes, ..*old(current_chunk) }),
        match next {
            Some(light) => light <= level && cast(
                old(current_chunk).cubes@,
                old(current_chunk).position,
                old(current_chunk).chunk_filling,
                chunks@,
                x as int,
                z as int,
                h as int,
                level as int,
            ) == cast(
                final(current_chunk).cubes@,
                old(current_chunk).position,
                old(current_chunk).chunk_filling,
                chunks@,
                x as int,
                z as int,
                h - 1,
                light as int,
            ),
            None => final(current_chunk).cubes@ == cast(
                old(current_chunk).cubes@,
                old(current_chunk).position,
                old(current_chunk).chunk_filling,
                chunks@,
                x as int,
                z as int,
                h as int,
                level as int,
            ),
        },
{
    let cy = current_chunk.position.y;
    let gx = to_world_position(x, current_chunk.position.x);
    let gz = to_world_position(z, current_chunk.position.z);
    let at = WorldPosition { x: gx, y: h, z: gz };
    assert(at == ray_voxel(current_chunk.position, x as int, z as int, h as int));
    let multiplier = get_light_multiplier_at_world_position(current_chunk, at, chunks);
    let light = dim(level, multiplier);
    let min_height: i32 = 32 * cy;
    if h < min_height + 32 {
        let taken = (light / LIGHT_UNIT) as u8;
        set_natural_light(
            current_chunk,
            x,
            (h - min_height + 1) as u32,
            z,
            if taken < MIN_LIGHT_LEVEL { MIN_LIGHT_LEVEL } else { taken },
        );
        Some(light)
    } else if h == min_height + 32 {
        if light < MIN_LIGHT_LEVEL as u32 * LIGHT_UNIT {
            no_light_column(current_chunk, x, z);
            None
        } else {
            set_natural_light(current_chunk, x, CHUNK_SIZE - 1, z, (light / LIGHT_UNIT) as u8);
            Some(light)
        }
    } else if light <= MIN_LIGHT_LEVEL as u32 * LIGHT_UNIT {
        no_light_column(current_chunk, x, z);
        None
    } else {
        Some(light)
    }
}

/// Casts sky light down the column `(x, z)` of `current_chunk`, from the
/// height that the world has recorded for the column. Whether the chunk is
/// being filled makes no difference: every interior cell of the column is
/// written, with the least light at least.
#[verifier::rlimit(40)]
pub fn cast_natural_light(current_chunk: &mut Chunk, x: u32, z: u32, filling_chunk: bool, world: &World)
    requires
        old(current_chunk).wf(),
        old(current_chunk).position.in_world(),
        x < 34,
        z < 34,
        chunks_valid(world.chunks@),
        old(current_chunk).position.y > PROFOUND_CHUNK ==> ({
            let key = column_key(
                world_axis(x as int, old(current_chunk).position.x as int),
                world_axis(z as int, old(current_chunk).position.z as int),
            );
            &&& world.natural_light_stopped_at@.contains_key(key)
            &&& ray_ready(
                old(current_chunk).position,
                old(current_chunk).chunk_filling,
                world.chunks@,
                x as int,
                z as int,
                world.natural_light_stopped_at@[key] as int,
            )
        }),
    ensures
        final(current_chunk).wf(),
        final(current_chunk).cubes@ == cast_column(
            old(current_chunk).cubes@,
            old(current_chunk).position,
            old(current_chunk).chunk_filling,
            world.chunks@,
            x as int,
            z as int,
            world.natural_light_stopped_at@[column_key(
                world_axis(x as int, old(current_chunk).position.x as int),
                world_axis(z as int, old(current_chunk).position.z as int),
            )] as int,
        ),
        *final(current_chunk) == (Chunk { cubes: final(current_chunk).cubes, ..*old(current_chunk) }),
{
    if current_chunk.position.y <= PROFOUND_CHUNK {
        no_light_column(current_chunk, x, z);
        return ;
    }
    let gx = to_world_position(x, current_chunk.position.x);
    let gz = to_world_position(z, current_chunk.position.z);
    let sky_height = match world.natural_light_stopped_at.get(gx, gz) {
        Some(height) => height,
        None => {
            return ;
        },
    };
    let mut light_level: u32 = FULL_LIGHT;
    let min_height: i32 = 32 * current_chunk.position.y;
    let ghost end = cast(
        current_chunk.cubes@,
        current_chunk.position,
        current_chunk.chunk_filling,
        world.chunks@,
        x as int,
        z as int,
        sky_height - 1,
        FULL_LIGHT as int,
    );
    let mut current_height: i32 = sky_height;
    while current_height > min_height
        invariant
            current_chunk.wf(),
            current_chunk.position.in_world(),
            x < 34,
            z < 34,
            chunks_valid(world.chunks@),
            min_height == 32 * current_chunk.position.y,
            current_chunk.position.y > PROFOUND_CHUNK,
            sky_height == world.natural_light_stopped_at@[column_key(
                world_axis(x as int, old(current_chunk).position.x as int),
                world_axis(z as int, old(current_chunk).position.z as int),
            )],
            end == cast(
                old(current_chunk).cubes@,
                old(current_chunk).position,
                old(current_chunk).chunk_filling,
                world.chunks@,
                x as int,
                z as int,
                sky_height - 1,
                FULL_LIGHT as int,
            ),
            current_height <= sky_height,
            light_level <= FULL_LIGHT,
            ray_ready(
                current_chunk.position,
                current_chunk.chunk_filling,
                world.chunks@,
                x as int,
                z as int,
                sky_height as int,
            ),
            *current_chunk == (Chunk { cubes: current_chunk.cubes, ..*old(current_chunk) }),
            cast(
                current_chunk.cubes@,
                current_chunk.position,
                current_chunk.chunk_filling,
                world.chunks@,
                x as int,
                z as int,
                current_height - 1,
                light_level as int,
            ) == end,
        decreases current_height - min_height,
    {
        current_height -= 1;
        match cast_step(
            current_chunk,
            x,
            z,
            current_height,
            light_level,
            &world.chunks,
        ) {
            Some(light) => {
                light_level = light;
            },
            None => {
                return ;
            },
        }
    }
}

/// Whether sky light does not grow on the way down the interior of the
/// column `(x, z)`.
pub open spec fn fades_downward(cubes: Seq<Cube>, x: int, z: int) -> bool {
    forall|low: int, high: int|
        1 <= low <= high <= 32 ==> (#[trigger] cubes[cell_index(x, low, z)]).natural_light_level <= (
        #[trigger] cubes[cell_index(x, high, z)]).natural_light_level
}

/// A dark column has the least light in each interior row, and the rest of
/// the grid is as it was.
pub proof fn lemma_no_light_rows(cubes: Seq<Cube>, x: int, z: int, n: nat)
    requires
        cubes.len() == CHUNK_VOLUME,
        0 <= x < 34,
        0 <= z < 34,
        n <= 32,
    ensures
        no_light_rows(cubes, x, z, n).len() == cubes.len(),
        forall|y: int|
            1 <= y <= n ==> (#[trigger] no_light_rows(cubes, x, z, n)[cell_index(
                x,
                y,
                z,
            )]).natural_light_level == MIN_LIGHT_LEVEL,
        forall|i: int|
            0 <= i < cubes.len() ==> (#[trigger] no_light_rows(cubes, x, z, n)[i]).id == cubes[i].id,
        forall|i: int|
            0 <= i < cubes.len() && !(crate::shape::cell_x(i) == x && crate::shape::cell_z(i) == z
                && 1 <= crate::shape::cell_y(i) <= n) ==> #[trigger] no_light_rows(cubes, x, z, n)[i]
                == cubes[i],
    decreases n,
{
    if n > 0 {
        lemma_no_light_rows(cubes, x, z, (n - 1) as nat);
        let before = no_light_rows(cubes, x, z, (n - 1) as nat);
        let after = no_light_rows(cubes, x, z, n);
        assert forall|y: int| 1 <= y <= n implies (#[trigger] after[cell_index(
            x,
            y,
            z,
        )]).natural_light_level == MIN_LIGHT_LEVEL by {
            if y < n {
                assert(before[cell_index(x, y, z)].natural_light_level == MIN_LIGHT_LEVEL);
            }
        }
    }
}

/// What a material lets through of a ray is no more than the ray, and not
/// negative.
pub proof fn lemma_dimmed_le(level: int, id: u16)
    requires
        0 <= level,
    ensures
        0 <= dimmed(level, id) <= level,
{
    let m = item_light_multiplier(id) as int;
    assert(0 <= level * m <= level * 10) by (nonlinear_arith)
        requires
            0 <= m <= 10,
            0 <= level,
    ;
}

/// Whether every interior cell of the column `(x, z)` has the least light at
/// least.
pub open spec fn has_least_light(cubes: Seq<Cube>, x: int, z: int) -> bool {
    forall|y: int|
        1 <= y <= 32 ==> (#[trigger] cubes[cell_index(x, y, z)]).natural_light_level >= MIN_LIGHT_LEVEL
}

#[verifier::rlimit(40)]
proof fn lemma_cast_fades(
    cubes: Seq<Cube>,
    position: ChunkPosition,
    terrain: ChunkFilling,
    others: Map<u128, Chunk>,
    x: int,
    z: int,
    h: int,
    level: int,
)
    requires
        cubes.len() == CHUNK_VOLUME,
        0 <= x < 34,
        0 <= z < 34,
        0 <= level <= FULL_LIGHT,
        h >= 32 * position.y - 1,
        h < 32 * position.y + 32 ==> forall|y: int|
            h - 32 * position.y + 1 < y <= 32 ==> (#[trigger] cubes[cell_index(
                x,
                y,
                z,
            )]).natural_light_level >= taken_light(level),
        h < 32 * position.y + 32 ==> forall|low: int, high: int|
            h - 32 * position.y + 1 < low <= high <= 32 ==> (#[trigger] cubes[cell_index(
                x,
                low,
                z,
            )]).natural_light_level <= (#[trigger] cubes[cell_index(x, high, z)]).natural_light_level,
    ensures
        fades_downward(cast(cubes, position, terrain, others, x, z, h, level), x, z),
        has_least_light(cast(cubes, position, terrain, others, x, z, h, level), x, z),
    decreases h - 32 * position.y + 1,
{
    let cy = position.y as int;
    if h >= 32 * cy {
        let at = WorldPosition {
            x: world_axis(x, position.x as int) as i32,
            y: h as i32,
            z: world_axis(z, position.z as int) as i32,
        };
        let id = seen_block(cubes, position, terrain, others, at);
        let light = dimmed(level, id);
        lemma_dimmed_le(level, id);
        if h < 32 * cy + 32 {
            let row = h - 32 * cy + 1;
            let next = with_light(cubes, x, row, z, taken_light(light));
            assert forall|y: int| row - 1 < y <= 32 implies (#[trigger] next[cell_index(
                x,
                y,
                z,
            )]).natural_light_level >= taken_light(light) by {
                if y != row {
                    assert(next[cell_index(x, y, z)] == cubes[cell_index(x, y, z)]);
                }
            }
            assert forall|low: int, high: int| row - 1 < low <= high <= 32 implies (
            #[trigger] next[cell_index(x, low, z)]).natural_light_level <= (#[trigger] next[cell_index(
                x,
                high,
                z,
            )]).natural_light_level by {
                if low != row {
                    assert(next[cell_index(x, low, z)] == cubes[cell_index(x, low, z)]);
                    assert(next[cell_index(x, high, z)] == cubes[cell_index(x, high, z)]);
                } else if high != row {
                    assert(next[cell_index(x, high, z)] == cubes[cell_index(x, high, z)]);
                }
            }
            lemma_cast_fades(next, position, terrain, others, x, z, h - 1, light);
        } else if h == 32 * cy + 32 {
            if light < MIN_LIGHT_LEVEL * LIGHT_UNIT {
                lemma_no_light_rows(cubes, x, z, 32);
            } else {
                let next = with_light(cubes, x, 33, z, (light / (LIGHT_UNIT as int)) as u8);
                lemma_cast_fades(next, position, terrain, others, x, z, h - 1, light);
            }
        } else if light <= MIN_LIGHT_LEVEL * LIGHT_UNIT {
            lemma_no_light_rows(cubes, x, z, 32);
        } else {
            lemma_cast_fades(cubes, position, terrain, others, x, z, h - 1, light);
        }
    } else {
        assert forall|low: int, high: int| 1 <= low <= high <= 32 implies (#[trigger] cubes[cell_index(
            x,
            low,
            z,
        )]).natural_light_level <= (#[trigger] cubes[cell_index(x, high, z)]).natural_light_level by {
            assert(h - 32 * position.y + 1 < low);
        }
        assert forall|y: int| 1 <= y <= 32 implies (#[trigger] cubes[cell_index(
            x,
            y,
            z,
        )]).natural_light_level >= MIN_LIGHT_LEVEL by {
            assert(h - 32 * position.y + 1 < y);
        }
    }
}

/// Sky light does not grow on the way down, and never goes out: after light
/// was cast down a column from a height at or above the chunk's top, each
/// interior cell of the column is at most as bright as every cell above it,
/// and has the least light at least.
pub proof fn lemma_sky_light_fades_downward(
    cubes: Seq<Cube>,
    position: ChunkPosition,
    terrain: ChunkFilling,
    others: Map<u128, Chunk>,
    x: int,
    z: int,
    sky_height: int,
)
    requires
        cubes.len() == CHUNK_VOLUME,
        0 <= x < 34,
        0 <= z < 34,
        sky_height >= 32 * position.y + 32,
    ensures
        fades_downward(cast_column(cubes, position, terrain, others, x, z, sky_height), x, z),
        has_least_light(cast_column(cubes, position, terrain, others, x, z, sky_height), x, z),
{
    if position.y <= PROFOUND_CHUNK {
        lemma_no_light_rows(cubes, x, z, 32);
    } else {
        lemma_cast_fades(
            cubes,
            position,
            terrain,
            others,
            x,
            z,
            sky_height - 1,
            FULL_LIGHT as int,
        );
    }
}

/// Whether every interior cell of the column `(x, z)` has the full light of
/// the sky.
pub open spec fn fully_lit(cubes: Seq<Cube>, x: int, z: int) -> bool {
    forall|y: int| 1 <= y <= 32 ==> (#[trigger] cubes[cell_index(x, y, z)]).natural_light_level == 255
}

/// Whether a ray of the column `(x, z)` of the chunk at `position` finds
/// nothing but air from the height `sky_height` down to the chunk's lowest
/// interior row.
pub open spec fn open_air(
    cubes: Seq<Cube>,
    position: ChunkPosition,
    terrain: ChunkFilling,
    others: Map<u128, Chunk>,
    x: int,
    z: int,
    sky_height: int,
) -> bool {
    forall|h: int|
        32 * position.y <= h < sky_height ==> seen_block(
            cubes,
            position,
            terrain,
            others,
            #[trigger] ray_voxel(position, x, z, h),
        ) == 0
}

proof fn lemma_cast_air(
    cubes: Seq<Cube>,
    position: ChunkPosition,
    terrain: ChunkFilling,
    others: Map<u128, Chunk>,
    x: int,
    z: int,
    h: int,
)
    requires
        cubes.len() == CHUNK_VOLUME,
        0 <= x < 34,
        0 <= z < 34,
        position.in_world(),
        h >= 32 * position.y - 1,
        h <= i32::MAX,
        open_air(cubes, position, terrain, others, x, z, h + 1),
        forall|y: int|
            1 <= y <= 32 && h - 32 * position.y + 1 < y ==> (#[trigger] cubes[cell_index(
                x,
                y,
                z,
            )]).natural_light_level == 255,
    ensures
        fully_lit(cast(cubes, position, terrain, others, x, z, h, FULL_LIGHT as int), x, z),
    decreases h - 32 * position.y + 1,
{
    let cy = position.y as int;
    if h >= 32 * cy {
        let at = ray_voxel(position, x, z, h);
        assert(seen_block(cubes, position, terrain, others, at) == 0);
        let light = dimmed(FULL_LIGHT as int, 0);
        assert(light == FULL_LIGHT);
        assert(taken_light(light) == 255);
        let next = if h < 32 * cy + 32 {
            with_light(cubes, x, h - 32 * cy + 1, z, 255)
        } else if h == 32 * cy + 32 {
            with_light(cubes, x, 33, z, 255)
        } else {
            cubes
        };
        assert forall|i: int| 0 <= i < cubes.len() implies (#[trigger] next[i]).id == cubes[i].id by {}
        assert(open_air(next, position, terrain, others, x, z, h)) by {
            assert forall|k: int| 32 * position.y <= k < h implies seen_block(
                next,
                position,
                terrain,
                others,
                #[trigger] ray_voxel(position, x, z, k),
            ) == 0 by {
                let voxel = ray_voxel(position, x, z, k);
                assert(seen_block(cubes, position, terrain, others, voxel) == 0);
                assert(0 <= cell_of(voxel) < CHUNK_VOLUME);
            }
        }
        assert forall|y: int| 1 <= y <= 32 && h - 1 - 32 * position.y + 1 < y implies (
        #[trigger] next[cell_index(x, y, z)]).natural_light_level == 255 by {
            if y != h - 32 * cy + 1 {
                assert(next[cell_index(x, y, z)] == cubes[cell_index(x, y, z)]);
            }
        }
        lemma_cast_air(next, position, terrain, others, x, z, h - 1);
    }
}

/// Open air is fully lit: where a ray from at or above the chunk's top finds
/// nothing but air on its way down, each interior cell of the column takes
/// the full light of the sky, so that light does not change with depth.
pub proof fn lemma_open_air_is_fully_lit(
    cubes: Seq<Cube>,
    position: ChunkPosition,
    terrain: ChunkFilling,
    others: Map<u128, Chunk>,
    x: int,
    z: int,
    sky_height: int,
)
    requires
        cubes.len() == CHUNK_VOLUME,
        0 <= x < 34,
        0 <= z < 34,
        position.in_world(),
        position.y > PROFOUND_CHUNK,
        32 * position.y + 32 <= sky_height <= i32::MAX,
        open_air(cubes, position, terrain, others, x, z, sky_height),
    ensures
        fully_lit(cast_column(cubes, position, terrain, others, x, z, sky_height), x, z),
        fades_downward(cast_column(cubes, position, terrain, others, x, z, sky_height), x, z),
{
    lemma_cast_air(cubes, position, terrain, others, x, z, sky_height - 1);
}

/// From `PROFOUND_CHUNK` down it is dark: after light was cast down a column
/// of so deep a chunk, each interior cell of the column has the least light.
pub proof fn lemma_profound_is_dark(
    cubes: Seq<Cube>,
    position: ChunkPosition,
    terrain: ChunkFilling,
    others: Map<u128, Chunk>,
    x: int,
    z: int,
    sky_height: int,
)
    requires
        cubes.len() == CHUNK_VOLUME,
        0 <= x < 34,
        0 <= z < 34,
        position.y <= PROFOUND_CHUNK,
    ensures
        forall|y: int|
            1 <= y <= 32 ==> (#[trigger] cast_column(
                cubes,
                position,
                terrain,
                others,
                x,
                z,
                sky_height,
            )[cell_index(x, y, z)]).natural_light_level == MIN_LIGHT_LEVEL,
{
    lemma_no_light_rows(cubes, x, z, 32);
}

/// The grid after sky light was cast down the first `n` columns, x by x and
/// within each x z by z.
pub open spec fn cast_columns(
    cubes: Seq<Cube>,
    position: ChunkPosition,
    terrain: ChunkFilling,
    others: Map<u128, Chunk>,
    sky: Map<u64, i32>,
    n: nat,
) -> Seq<Cube>
    decreases n,
{
    if n == 0 {
        cubes
    } else {
        let c = (n - 1) as int;
        cast_column(
            cast_columns(cubes, position, terrain, others, sky, (n - 1) as nat),
            position,
            terrain,
            others,
            c / 34,
            c % 34,
            sky[column_key(
                world_axis(c / 34, position.x as int),
                world_axis(c % 34, position.z as int),
            )] as int,
        )
    }
}

/// Whether sky light can be cast down every column of a chunk: unless the
/// chunk lies too deep for any, each column has a sky height, and a ray can
/// be cast from it.
pub open spec fn sky_ready(
    position: ChunkPosition,
    terrain: ChunkFilling,
    others: Map<u128, Chunk>,
    sky: Map<u64, i32>,
) -> bool {
    position.y > PROFOUND_CHUNK ==> forall|x: int, z: int|
        0 <= x < 34 && 0 <= z < 34 ==> {
            let key = #[trigger] column_key(
                world_axis(x, position.x as int),
                world_axis(z, position.z as int),
            );
            sky.contains_key(key) && ray_ready(position, terrain, others, x, z, sky[key] as int)
        }
}

/// Casts sky light down every column of `current_chunk`, halo columns
/// included.
#[verifier::rlimit(40)]
pub fn recalculate_natural_light(current_chunk: &mut Chunk, world: &World)
    requires
        old(current_chunk).wf(),
        old(current_chunk).position.in_world(),
        chunks_valid(world.chunks@),
        sky_ready(
            old(current_chunk).position,
            old(current_chunk).chunk_filling,
            world.chunks@,
            world.natural_light_stopped_at@,
        ),
    ensures
        final(current_chunk).wf(),
        final(current_chunk).cubes@ == cast_columns(
            old(current_chunk).cubes@,
            old(current_chunk).position,
            old(current_chunk).chunk_filling,
            world.chunks@,
            world.natural_light_stopped_at@,
            1156,
        ),
        *final(current_chunk) == (Chunk { cubes: final(current_chunk).cubes, ..*old(current_chunk) }),
{
    let mut x: u32 = 0;
    while x < CHUNK_SIZE
        invariant
            x <= CHUNK_SIZE,
            current_chunk.wf(),
            current_chunk.position.in_world(),
            chunks_valid(world.chunks@),
            sky_ready(
                current_chunk.position,
                current_chunk.chunk_filling,
                world.chunks@,
                world.natural_light_stopped_at@,
            ),
            *current_chunk == (Chunk { cubes: current_chunk.cubes, ..*old(current_chunk) }),
            current_chunk.cubes@ == cast_columns(
                old(current_chunk).cubes@,
                old(current_chunk).position,
                old(current_chunk).chunk_filling,
                world.chunks@,
                world.natural_light_stopped_at@,
                (x * 34) as nat,
            ),
        decreases CHUNK_SIZE - x,
    {
        let mut z: u32 = 0;
        while z < CHUNK_SIZE
            invariant
                x < CHUNK_SIZE,
                z <= CHUNK_SIZE,
                current_chunk.wf(),
                current_chunk.position.in_world(),
                chunks_valid(world.chunks@),
                sky_ready(
                    current_chunk.position,
                    current_chunk.chunk_filling,
                    world.chunks@,
                    world.natural_light_stopped_at@,
                ),
                *current_chunk == (Chunk { cubes: current_chunk.cubes, ..*old(current_chunk) }),
                current_chunk.cubes@ == cast_columns(
                    old(current_chunk).cubes@,
                    old(current_chunk).position,
                    old(current_chunk).chunk_filling,
                    world.chunks@,
                    world.natural_light_stopped_at@,
                    (x * 34 + z) as nat,
                ),
            decreases CHUNK_SIZE - z,
        {
            proof {
                let c = (x * 34 + z) as int;
                assert(c / 34 == x && c % 34 == z);
                let key = column_key(
                    world_axis(x as int, current_chunk.position.x as int),
                    world_axis(z as int, current_chunk.position.z as int),
                );
            }
            cast_natural_light(current_chunk, x, z, true, world);
            z += 1;
        }
        x += 1;
    }
}

/// The state after light was spread from the first `n` cells, x by x, within
/// each x y by y, within each y z by z: from each cell that is then brighter
/// than the least light and one step's loss, light of its own level.
pub open spec fn diffuse_cells(state: Glow, chunk: ChunkPosition, n: nat) -> Glow
    decreases n,
{
    if n == 0 {
        state
    } else {
        let c = (n - 1) as int;
        let before = diffuse_cells(state, chunk, (n - 1) as nat);
        let level = before.cubes[cell_index(c / 1156, (c / 34) % 34, c % 34)].natural_light_level;
        if level > MIN_LIGHT_LEVEL + DIFFUSE_ATTENUATION {
            diffuse(before, chunk, c / 1156, (c / 34) % 34, c % 34, level, true)
        } else {
            before
        }
    }
}

/// A material lets through no more of less light.
pub proof fn lemma_attenuated_grows(low: u8, high: u8, id: u16)
    requires
        low <= high,
    ensures
        attenuated(low, id) <= attenuated(high, id),
{
    let m = item_light_multiplier(id) as int;
    lemma_attenuated_le(low, id);
    lemma_attenuated_le(high, id);
    assert(low * m <= high * m) by (nonlinear_arith)
        requires
            0 <= m,
            low <= high,
    ;
}

/// A cell that is settled for a light is settled for less light.
pub proof fn lemma_settled_for_less(cubes: Seq<Cube>, i: int, low: u8, high: u8)
    requires
        low <= high,
        settled(cubes, i, high),
    ensures
        settled(cubes, i, low),
{
    lemma_attenuated_grows(low, high, cubes[i].id);
}

/// Whether the cell at `i` has handed on its light: if it has enough to
/// give some away, each cell beside it is settled for what it gives.
pub open spec fn spread_from(cubes: Seq<Cube>, i: int) -> bool {
    cubes[i].natural_light_level >= DIFFUSE_ATTENUATION ==> forall|d: int|
        0 <= d < 6 && has_beside(cell_x(i), cell_y(i), cell_z(i), d) ==> settled(
            cubes,
            #[trigger] beside_index(cell_x(i), cell_y(i), cell_z(i), d),
            (cubes[i].natural_light_level - DIFFUSE_ATTENUATION) as u8,
        )
}

/// Whether each cell that is brighter in `after` than in `before` has handed
/// on its light there.
pub open spec fn raised_are_spread(before: Seq<Cube>, after: Seq<Cube>) -> bool {
    forall|c: int|
        0 <= c < before.len() && after[c].natural_light_level > before[c].natural_light_level
            ==> #[trigger] spread_from(after, c)
}

/// Whether the cell at `i`, as the first of a spread of its own light,
/// would change nothing: it is too dim or closed to give any away, or each
/// cell beside it is settled for what it gives.
pub open spec fn source_settled(cubes: Seq<Cube>, i: int) -> bool {
    let light = attenuated(cubes[i].natural_light_level, cubes[i].id);
    cubes[i].natural_light_level > MIN_LIGHT_LEVEL + DIFFUSE_ATTENUATION && light > MIN_LIGHT_LEVEL
        && item_is_transparent(cubes[i].id) && light >= DIFFUSE_ATTENUATION ==> forall|d: int|
        0 <= d < 6 && has_beside(cell_x(i), cell_y(i), cell_z(i), d) ==> settled(
            cubes,
            #[trigger] beside_index(cell_x(i), cell_y(i), cell_z(i), d),
            (light - DIFFUSE_ATTENUATION) as u8,
        )
}

/// A cell that has handed on its light stays so while it keeps its light and
/// the light around is only raised.
proof fn lemma_spread_stays(before: Seq<Cube>, after: Seq<Cube>, i: int)
    requires
        before.len() == CHUNK_VOLUME,
        0 <= i < CHUNK_VOLUME,
        brightened(before, after),
        after[i].natural_light_level == before[i].natural_light_level,
        spread_from(before, i),
    ensures
        spread_from(after, i),
{
    if after[i].natural_light_level >= DIFFUSE_ATTENUATION {
        let level = (after[i].natural_light_level - DIFFUSE_ATTENUATION) as u8;
        assert forall|d: int| 0 <= d < 6 && has_beside(cell_x(i), cell_y(i), cell_z(i), d) implies settled(
            after,
            #[trigger] beside_index(cell_x(i), cell_y(i), cell_z(i), d),
            level,
        ) by {
            let n = beside_index(cell_x(i), cell_y(i), cell_z(i), d);
            assert(settled(before, n, level));
            lemma_settled_stays(before, after, n, level);
        }
    }
}

/// A first cell that would change nothing stays so while it keeps its light
/// and the light around is only raised.
proof fn lemma_source_stays(before: Seq<Cube>, after: Seq<Cube>, i: int)
    requires
        before.len() == CHUNK_VOLUME,
        0 <= i < CHUNK_VOLUME,
        brightened(before, after),
        after[i].natural_light_level == before[i].natural_light_level,
        source_settled(before, i),
    ensures
        source_settled(after, i),
{
    let light = attenuated(after[i].natural_light_level, after[i].id);
    if light >= DIFFUSE_ATTENUATION {
        let level = (light - DIFFUSE_ATTENUATION) as u8;
        if source_settled(before, i) && !source_settled(after, i) {
            let d = choose|d: int|
                0 <= d < 6 && has_beside(cell_x(i), cell_y(i), cell_z(i), d) && !settled(
                    after,
                    #[trigger] beside_index(cell_x(i), cell_y(i), cell_z(i), d),
                    level,
                );
            let n = beside_index(cell_x(i), cell_y(i), cell_z(i), d);
            assert(settled(before, n, level));
            lemma_settled_stays(before, after, n, level);
        }
    }
}

/// A cell that has handed on its light would, as the first of a spread of
/// its own light, change nothing.
proof fn lemma_spread_is_source_settled(cubes: Seq<Cube>, i: int)
    requires
        cubes.len() == CHUNK_VOLUME,
        0 <= i < CHUNK_VOLUME,
        spread_from(cubes, i),
    ensures
        source_settled(cubes, i),
{
    let own = cubes[i].natural_light_level;
    let light = attenuated(own, cubes[i].id);
    lemma_attenuated_le(own, cubes[i].id);
    if light >= DIFFUSE_ATTENUATION {
        assert forall|d: int| 0 <= d < 6 && has_beside(cell_x(i), cell_y(i), cell_z(i), d) implies settled(
            cubes,
            #[trigger] beside_index(cell_x(i), cell_y(i), cell_z(i), d),
            (light - DIFFUSE_ATTENUATION) as u8,
        ) by {
            let n = beside_index(cell_x(i), cell_y(i), cell_z(i), d);
            assert(settled(cubes, n, (own - DIFFUSE_ATTENUATION) as u8));
            lemma_settled_for_less(
                cubes,
                n,
                (light - DIFFUSE_ATTENUATION) as u8,
                (own - DIFFUSE_ATTENUATION) as u8,
            );
        }
    }
}

/// Every cell that a spread makes brighter has handed on its light when the
/// spread is over.
#[verifier::rlimit(60)]
pub proof fn lemma_diffuse_spreads(
    state: Glow,
    chunk: ChunkPosition,
    x: int,
    y: int,
    z: int,
    parent_light: u8,
    first: bool,
)
    requires
        in_grid(x, y, z),
        state.cubes.len() == CHUNK_VOLUME,
    ensures
        raised_are_spread(state.cubes, diffuse(state, chunk, x, y, z, parent_light, first).cubes),
    decreases parent_light, 0int, 0int,
{
    let i = cell_index(x, y, z);
    let light = attenuated(parent_light, state.cubes[i].id);
    let after = diffuse(state, chunk, x, y, z, parent_light, first);
    lemma_cell_index_inverse(x, y, z);
    if (state.cubes[i].natural_light_level < light || first) && light > MIN_LIGHT_LEVEL
        && item_is_transparent(state.cubes[i].id) {
        let lit = Glow { cubes: raised_light(state.cubes, i, light), abroad: state.abroad };
        if DIFFUSE_ATTENUATION <= light {
            lemma_attenuated_le(parent_light, state.cubes[i].id);
            let next = (light - DIFFUSE_ATTENUATION) as u8;
            lemma_diffuse_around_unfold(lit, chunk, x, y, z, next);
            lemma_diffuse_around_brightens(lit, chunk, x, y, z, next, 6);
            lemma_diffuse_around_spreads(lit, chunk, x, y, z, next, 6);
            assert forall|c: int|
                0 <= c < state.cubes.len() && after.cubes[c].natural_light_level
                    > state.cubes[c].natural_light_level implies #[trigger] spread_from(after.cubes, c) by {
                if after.cubes[c].natural_light_level > lit.cubes[c].natural_light_level {
                    assert(spread_from(after.cubes, c));
                } else {
                    assert(c == i);
                    assert(after.cubes[i].natural_light_level == light);
                    assert forall|d: int| 0 <= d < 6 && has_beside(x, y, z, d) implies settled(
                        after.cubes,
                        #[trigger] beside_index(x, y, z, d),
                        next,
                    ) by {}
                }
            }
        } else {
            assert forall|c: int|
                0 <= c < state.cubes.len() && after.cubes[c].natural_light_level
                    > state.cubes[c].natural_light_level implies #[trigger] spread_from(after.cubes, c) by {
                assert(c == i);
            }
        }
    }
}

/// Every cell that the steps around a cell make brighter has handed on its
/// light when they are over.
#[verifier::rlimit(60)]
pub proof fn lemma_diffuse_around_spreads(
    state: Glow,
    chunk: ChunkPosition,
    x: int,
    y: int,
    z: int,
    level: u8,
    n: nat,
)
    requires
        in_grid(x, y, z),
        state.cubes.len() == CHUNK_VOLUME,
        n <= 6,
    ensures
        raised_are_spread(state.cubes, diffuse_around(state, chunk, x, y, z, level, n).cubes),
    decreases level, 1int, n,
{
    if n > 0 {
        let before = diffuse_around(state, chunk, x, y, z, level, (n - 1) as nat);
        lemma_diffuse_around_spreads(state, chunk, x, y, z, level, (n - 1) as nat);
        lemma_diffuse_around_brightens(state, chunk, x, y, z, level, (n - 1) as nat);
        let after = diffuse_towards(before, chunk, x, y, z, n - 1, level);
        if has_beside(x, y, z, n - 1) {
            let to = beside(x, y, z, n - 1);
            lemma_diffuse_brightens(before, chunk, to.0, to.1, to.2, level, false);
            lemma_diffuse_spreads(before, chunk, to.0, to.1, to.2, level, false);
        }
        assert(brightened(before.cubes, after.cubes));
        assert forall|c: int|
            0 <= c < state.cubes.len() && after.cubes[c].natural_light_level
                > state.cubes[c].natural_light_level implies #[trigger] spread_from(after.cubes, c) by {
            if after.cubes[c].natural_light_level > before.cubes[c].natural_light_level {
                assert(spread_from(after.cubes, c));
            } else {
                assert(spread_from(before.cubes, c));
                lemma_spread_stays(before.cubes, after.cubes, c);
            }
        }
    }
}

/// The cell that comes `k`th when the cells of a grid are gone through x by
/// x, within each x y by y, within each y z by z.
pub open spec fn scan_cell(k: int) -> int {
    cell_index(k / 1156, (k / 34) % 34, k % 34)
}

/// Whether each of the first `n` cells gone through would, as the first of a
/// spread of its own light, change nothing.
pub open spec fn sources_settled(cubes: Seq<Cube>, n: int) -> bool {
    forall|k: int| 0 <= k < n ==> source_settled(cubes, #[trigger] scan_cell(k))
}

/// A grid in which a cell would, as the first of a spread of its own light,
/// change nothing is left as it is by that spread.
proof fn lemma_settled_source_stays(state: Glow, chunk: ChunkPosition, x: int, y: int, z: int)
    requires
        in_grid(x, y, z),
        state.cubes.len() == CHUNK_VOLUME,
        source_settled(state.cubes, cell_index(x, y, z)),
        state.cubes[cell_index(x, y, z)].natural_light_level > MIN_LIGHT_LEVEL + DIFFUSE_ATTENUATION,
    ensures
        diffuse(
            state,
            chunk,
            x,
            y,
            z,
            state.cubes[cell_index(x, y, z)].natural_light_level,
            true,
        ).cubes == state.cubes,
{
    let i = cell_index(x, y, z);
    let own = state.cubes[i].natural_light_level;
    let light = attenuated(own, state.cubes[i].id);
    lemma_attenuated_le(own, state.cubes[i].id);
    lemma_cell_index_inverse(x, y, z);
    if light > MIN_LIGHT_LEVEL && item_is_transparent(state.cubes[i].id) {
        let lit = Glow { cubes: raised_light(state.cubes, i, light), abroad: state.abroad };
        assert(lit.cubes == state.cubes);
        if DIFFUSE_ATTENUATION <= light {
            let next = (light - DIFFUSE_ATTENUATION) as u8;
            lemma_diffuse_around_unfold(lit, chunk, x, y, z, next);
            assert forall|d: int| 0 <= d < 6 && has_beside(x, y, z, d) implies settled(
                lit.cubes,
                #[trigger] beside_index(x, y, z, d),
                next,
            ) by {}
            lemma_diffuse_around_settled(lit, chunk, x, y, z, next, 6);
        }
    }
}

/// After a spread of a cell's own light from that cell, the cell would, as
/// the first of the same spread, change nothing.
proof fn lemma_source_is_settled(state: Glow, chunk: ChunkPosition, x: int, y: int, z: int)
    requires
        in_grid(x, y, z),
        state.cubes.len() == CHUNK_VOLUME,
    ensures
        source_settled(
            diffuse(
                state,
                chunk,
                x,
                y,
                z,
                state.cubes[cell_index(x, y, z)].natural_light_level,
                true,
            ).cubes,
            cell_index(x, y, z),
        ),
{
    let i = cell_index(x, y, z);
    let own = state.cubes[i].natural_light_level;
    let light = attenuated(own, state.cubes[i].id);
    let after = diffuse(state, chunk, x, y, z, own, true);
    lemma_attenuated_le(own, state.cubes[i].id);
    lemma_cell_index_inverse(x, y, z);
    lemma_diffuse_brightens(state, chunk, x, y, z, own, true);
    lemma_diffuse_spreads(state, chunk, x, y, z, own, true);
    if after.cubes[i].natural_light_level > own {
        assert(spread_from(after.cubes, i));
        lemma_spread_is_source_settled(after.cubes, i);
    } else if light > MIN_LIGHT_LEVEL && item_is_transparent(state.cubes[i].id) && DIFFUSE_ATTENUATION
        <= light {
        let lit = Glow { cubes: raised_light(state.cubes, i, light), abroad: state.abroad };
        let next = (light - DIFFUSE_ATTENUATION) as u8;
        lemma_diffuse_around_unfold(lit, chunk, x, y, z, next);
        lemma_diffuse_around_brightens(lit, chunk, x, y, z, next, 6);
        assert forall|d: int| 0 <= d < 6 && has_beside(x, y, z, d) implies settled(
            after.cubes,
            #[trigger] beside_index(x, y, z, d),
            next,
        ) by {}
    }
}

/// What holds while the cells of a grid are gone through and light is
/// spread from each: every cell gone through would change nothing as the
/// first of a spread, and every cell that was made brighter has handed on
/// its light.
#[verifier::rlimit(60)]
proof fn lemma_diffuse_cells_settles(state: Glow, chunk: ChunkPosition, n: nat)
    requires
        state.cubes.len() == CHUNK_VOLUME,
        n <= CHUNK_VOLUME,
    ensures
        sources_settled(diffuse_cells(state, chunk, n).cubes, n as int),
        raised_are_spread(state.cubes, diffuse_cells(state, chunk, n).cubes),
        brightened(state.cubes, diffuse_cells(state, chunk, n).cubes),
    decreases n,
{
    lemma_diffuse_cells_brightens(state, chunk, n);
    if n > 0 {
        lemma_diffuse_cells_settles(state, chunk, (n - 1) as nat);
        lemma_diffuse_cells_brightens(state, chunk, (n - 1) as nat);
        let c = (n - 1) as int;
        let x = c / 1156;
        let y = (c / 34) % 34;
        let z = c % 34;
        let before = diffuse_cells(state, chunk, (n - 1) as nat);
        let after = diffuse_cells(state, chunk, n);
        let level = before.cubes[cell_index(x, y, z)].natural_light_level;
        assert(in_grid(x, y, z));
        if level > MIN_LIGHT_LEVEL + DIFFUSE_ATTENUATION {
            lemma_diffuse_brightens(before, chunk, x, y, z, level, true);
            lemma_diffuse_spreads(before, chunk, x, y, z, level, true);
            lemma_source_is_settled(before, chunk, x, y, z);
        }
        assert(brightened(before.cubes, after.cubes));
        assert(raised_are_spread(before.cubes, after.cubes));
        assert forall|i: int|
            0 <= i < state.cubes.len() && after.cubes[i].natural_light_level
                > state.cubes[i].natural_light_level implies #[trigger] spread_from(after.cubes, i) by {
            if after.cubes[i].natural_light_level > before.cubes[i].natural_light_level {
                assert(spread_from(after.cubes, i));
            } else {
                assert(spread_from(before.cubes, i));
                lemma_spread_stays(before.cubes, after.cubes, i);
            }
        }
        assert forall|k: int| 0 <= k < n implies source_settled(after.cubes, #[trigger] scan_cell(k)) by {
            let i = scan_cell(k);
            assert(0 <= i < CHUNK_VOLUME);
            if k < n - 1 {
                assert(source_settled(before.cubes, scan_cell(k)));
                if after.cubes[i].natural_light_level > before.cubes[i].natural_light_level {
                    assert(spread_from(after.cubes, i));
                    lemma_spread_is_source_settled(after.cubes, i);
                } else {
                    lemma_source_stays(before.cubes, after.cubes, i);
                }
            }
        }
    }
}

/// A grid in which every cell would change nothing as the first of a spread
/// is left as it is when the cells are gone through.
proof fn lemma_settled_cells_stay(state: Glow, chunk: ChunkPosition, n: nat)
    requires
        state.cubes.len() == CHUNK_VOLUME,
        n <= CHUNK_VOLUME,
        sources_settled(state.cubes, CHUNK_VOLUME as int),
    ensures
        diffuse_cells(state, chunk, n).cubes == state.cubes,
    decreases n,
{
    if n > 0 {
        lemma_settled_cells_stay(state, chunk, (n - 1) as nat);
        let c = (n - 1) as int;
        let before = diffuse_cells(state, chunk, (n - 1) as nat);
        assert(source_settled(state.cubes, scan_cell(c)));
        let level = before.cubes[cell_index(c / 1156, (c / 34) % 34, c % 34)].natural_light_level;
        if level > MIN_LIGHT_LEVEL + DIFFUSE_ATTENUATION {
            lemma_settled_source_stays(before, chunk, c / 1156, (c / 34) % 34, c % 34);
        }
    }
}

/// Spreading the light of a whole grid a second time leaves the grid as the
/// first time left it.
pub proof fn lemma_diffuse_cells_idempotent(state: Glow, chunk: ChunkPosition)
    requires
        state.cubes.len() == CHUNK_VOLUME,
    ensures
        diffuse_cells(
            diffuse_cells(state, chunk, CHUNK_VOLUME as nat),
            chunk,
            CHUNK_VOLUME as nat,
        ).cubes == diffuse_cells(state, chunk, CHUNK_VOLUME as nat).cubes,
{
    lemma_diffuse_cells_settles(state, chunk, CHUNK_VOLUME as nat);
    lemma_settled_cells_stay(
        diffuse_cells(state, chunk, CHUNK_VOLUME as nat),
        chunk,
        CHUNK_VOLUME as nat,
    );
}

/// Spreading from cell after cell changes nothing but sky light and lowers
/// none.
pub proof fn lemma_diffuse_cells_brightens(state: Glow, chunk: ChunkPosition, n: nat)
    requires
        state.cubes.len() == CHUNK_VOLUME,
        n <= CHUNK_VOLUME,
    ensures
        brightened(state.cubes, diffuse_cells(state, chunk, n).cubes),
    decreases n,
{
    if n > 0 {
        lemma_diffuse_cells_brightens(state, chunk, (n - 1) as nat);
        let c = (n - 1) as int;
        let before = diffuse_cells(state, chunk, (n - 1) as nat);
        let level = before.cubes[cell_index(c / 1156, (c / 34) % 34, c % 34)].natural_light_level;
        lemma_diffuse_brightens(before, chunk, c / 1156, (c / 34) % 34, c % 34, level, true);
    }
}

/// Spreads the sky light of every cell of `current_chunk` that is bright
/// enough to give some away.
#[verifier::rlimit(40)]
pub fn recalculate_diffuse_light(current_chunk: &mut Chunk)
    requires
        old(current_chunk).wf(),
        has_neighbours(old(current_chunk).position),
    ensures
        final(current_chunk).wf(),
        (Glow {
            cubes: final(current_chunk).cubes@,
            abroad: final(current_chunk).other_chunks_natural_light_modifications@,
        }) == diffuse_cells(
            Glow {
                cubes: old(current_chunk).cubes@,
                abroad: old(current_chunk).other_chunks_natural_light_modifications@,
            },
            old(current_chunk).position,
            CHUNK_VOLUME as nat,
        ),
        brightened(old(current_chunk).cubes@, final(current_chunk).cubes@),
        *final(current_chunk) == (Chunk {
            cubes: final(current_chunk).cubes,
            other_chunks_natural_light_modifications: final(
                current_chunk).other_chunks_natural_light_modifications,
            ..*old(current_chunk)
        }),
{
    proof {
        lemma_diffuse_cells_brightens(
            Glow {
                cubes: current_chunk.cubes@,
                abroad: current_chunk.other_chunks_natural_light_modifications@,
            },
            current_chunk.position,
            CHUNK_VOLUME as nat,
        );
    }
    let ghost start = Glow {
        cubes: current_chunk.cubes@,
        abroad: current_chunk.other_chunks_natural_light_modifications@,
    };
    let mut n: usize = 0;
    while n < CHUNK_VOLUME
        invariant
            n <= CHUNK_VOLUME,
            current_chunk.wf(),
            has_neighbours(current_chunk.position),
            current_chunk.position == old(current_chunk).position,
            (Glow {
                cubes: current_chunk.cubes@,
                abroad: current_chunk.other_chunks_natural_light_modifications@,
            }) == diffuse_cells(start, current_chunk.position, n as nat),
            *current_chunk == (Chunk {
                cubes: current_chunk.cubes,
                other_chunks_natural_light_modifications: current_chunk.other_chunks_natural_light_modifications,
                ..*old(current_chunk)
            }),
        decreases CHUNK_VOLUME - n,
    {
        let x = (n / 1156) as u32;
        let y = ((n / 34) % 34) as u32;
        let z = (n % 34) as u32;
        let linearized = linearize(x, y, z);
        let light_level = current_chunk.cubes[linearized].natural_light_level;
        if light_level as u16 > MIN_LIGHT_LEVEL as u16 + DIFFUSE_ATTENUATION as u16 {
            diffuse_light_from_pos(current_chunk, x, y, z, light_level, true);
        }
        n += 1;
    }
}

fn attenuate(level: u8, id: u16) -> (light: u8)
    requires
        id < crate::items::ITEM_COUNT,
    ensures
        light == attenuated(level, id),
        light <= level,
{
    let multiplier = item(id).light_multiplier;
    proof {
        lemma_attenuated_le(level, id);
    }
    assert(level * multiplier <= 2550) by (nonlinear_arith)
        requires
            level <= 255,
            multiplier <= 10,
    ;
    (level as u32 * multiplier as u32 / 10) as u8
}

#[verifier::rlimit(40)]
fn diffuse_light_towards(current_chunk: &mut Chunk, x: u32, y: u32, z: u32, dir: u8, level: u8)
    requires
        old(current_chunk).wf(),
        has_neighbours(old(current_chunk).position),
        in_grid(x as int, y as int, z as int),
        dir < 6,
    ensures
        final(current_chunk).wf(),
        (Glow {
            cubes: final(current_chunk).cubes@,
            abroad: final(current_chunk).other_chunks_natural_light_modifications@,
        }) == diffuse_towards(
            Glow {
                cubes: old(current_chunk).cubes@,
                abroad: old(current_chunk).other_chunks_natural_light_modifications@,
            },
            old(current_chunk).position,
            x as int,
            y as int,
            z as int,
            dir as int,
            level,
        ),
        *final(current_chunk) == (Chunk {
            cubes: final(current_chunk).cubes,
            other_chunks_natural_light_modifications: final(current_chunk).other_chunks_natural_light_modifications,
            ..*old(current_chunk)
        }),
    decreases level, 1int,
{
    let c = if dir < 2 { x } else if dir < 4 { y } else { z };
    let down = dir % 2 == 0;
    if (down && c > 0) || (!down && c < CHUNK_SIZE - 1) {
        let to = if down { c - 1 } else { c + 1 };
        diffuse_light_from_pos(
            current_chunk,
            if dir < 2 { to } else { x },
            if 2 <= dir && dir < 4 { to } else { y },
            if 4 <= dir { to } else { z },
            level,
            false,
        );
    }
    if (down && c == 1) || (!down && c == CHUNK_SIZE - 2) {
        let to = if down { CHUNK_SIZE - 1 } else { 0 };
        let by: i32 = if down { -1 } else { 1 };
        let position = current_chunk.position;
        current_chunk.other_chunks_natural_light_modifications.push(
            (
                NaturalLightModification {
                    light_level: level,
                    position: linearize(
                        if dir < 2 { to } else { x },
                        if 2 <= dir && dir < 4 { to } else { y },
                        if 4 <= dir { to } else { z },
                    ),
                },
                ChunkPosition {
                    x: if dir < 2 { position.x + by } else { position.x },
                    y: if 2 <= dir && dir < 4 { position.y + by } else { position.y },
                    z: if 4 <= dir { position.z + by } else { position.z },
                },
            ),
        );
    }
}

/// Lets light of level `parent_light` arrive at the cell `(x, y, z)` of
/// `current_chunk` and spread from there through the chunk's grid. Light
/// that leaves the interior is queued for the neighbouring chunk.
#[verifier::rlimit(40)]
pub fn diffuse_light_from_pos(
    current_chunk: &mut Chunk,
    x: u32,
    y: u32,
    z: u32,
    parent_light: u8,
    first: bool,
)
    requires
        old(current_chunk).wf(),
        has_neighbours(old(current_chunk).position),
        in_grid(x as int, y as int, z as int),
    ensures
        final(current_chunk).wf(),
        (Glow {
            cubes: final(current_chunk).cubes@,
            abroad: final(current_chunk).other_chunks_natural_light_modifications@,
        }) == diffuse(
            Glow {
                cubes: old(current_chunk).cubes@,
                abroad: old(current_chunk).other_chunks_natural_light_modifications@,
            },
            old(current_chunk).position,
            x as int,
            y as int,
            z as int,
            parent_light,
            first,
        ),
        *final(current_chunk) == (Chunk {
            cubes: final(current_chunk).cubes,
            other_chunks_natural_light_modifications: final(current_chunk).other_chunks_natural_light_modifications,
            ..*old(current_chunk)
        }),
    decreases parent_light, 0int,
{
    let linearized = linearize(x, y, z);
    let cube = current_chunk.cubes[linearized];
    let light = attenuate(parent_light, cube.id);
    if (cube.natural_light_level < light || first) && light > MIN_LIGHT_LEVEL && item(
        cube.id,
    ).is_transparent {
        if cube.natural_light_level < light {
            current_chunk.cubes.set(
                linearized,
                Cube {
                    id: cube.id,
                    natural_light_level: light,
                    items_light_level: cube.items_light_level,
                },
            );
        }
        if DIFFUSE_ATTENUATION > light {
            return ;
        }
        let next = light - DIFFUSE_ATTENUATION;
        diffuse_light_towards(current_chunk, x, y, z, 0, next);
        diffuse_light_towards(current_chunk, x, y, z, 1, next);
        diffuse_light_towards(current_chunk, x, y, z, 2, next);
        diffuse_light_towards(current_chunk, x, y, z, 3, next);
        diffuse_light_towards(current_chunk, x, y, z, 4, next);
        diffuse_light_towards(current_chunk, x, y, z, 5, next);
    }
}

} // verus!
