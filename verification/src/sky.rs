//! For each column of the world, the height from which sky light is cast down.

use crate::positions::ChunkPosition;
use crate::positions::to_world_position;
use crate::positions::world_axis;
use std::collections::HashMap;
use vstd::prelude::*;

verus! {

/// The key of the column `(gx, gz)`: both coordinates moved to be
/// non-negative, the first in the high half.
pub open spec fn column_key(gx: int, gz: int) -> u64 {
    ((gx + 2147483648) * 4294967296 + (gz + 2147483648)) as u64
}

/// Different columns have different keys.
pub proof fn lemma_column_key_injective(gx1: i32, gz1: i32, gx2: i32, gz2: i32)
    requires
        column_key(gx1 as int, gz1 as int) == column_key(gx2 as int, gz2 as int),
    ensures
        gx1 == gx2,
        gz1 == gz2,
{
}

fn key_of(gx: i32, gz: i32) -> (key: u64)
    ensures
        key == column_key(gx as int, gz as int),
{
    let high: u64 = (gx as i64 + 2147483648) as u64;
    let low: u64 = (gz as i64 + 2147483648) as u64;
    high * 4294967296 + low
}

/// The heights after a neighbour of a column that was just written is looked
/// at: it takes the height `gy` if it has none yet, or if `gy` lies below the
/// cell height `local` that was compared.
pub open spec fn sky_after_neighbour(
    sky: Map<u64, i32>,
    nx: int,
    nz: int,
    gy: int,
    local: int,
) -> Map<u64, i32> {
    if !sky.contains_key(column_key(nx, nz)) || gy < local {
        sky.insert(column_key(nx, nz), gy as i32)
    } else {
        sky
    }
}

/// The heights after the column of cell `(x, z)` of a chunk was looked at,
/// with `local` the highest cell row seen in it: the column takes that row's
/// world height if it has none yet or its height lies below `local`, and then
/// its four neighbours are looked at, west, east, north, south.
pub open spec fn sky_after_column(
    sky: Map<u64, i32>,
    chunk: ChunkPosition,
    x: int,
    z: int,
    local: int,
) -> Map<u64, i32> {
    let gx = world_axis(x, chunk.x as int);
    let gy = world_axis(local, chunk.y as int);
    let gz = world_axis(z, chunk.z as int);
    if !sky.contains_key(column_key(gx, gz)) || sky[column_key(gx, gz)] < local {
        sky_after_neighbour(
            sky_after_neighbour(
                sky_after_neighbour(
                    sky_after_neighbour(sky.insert(column_key(gx, gz), gy as i32), gx - 1, gz, gy, local),
                    gx + 1,
                    gz,
                    gy,
                    local,
                ),
                gx,
                gz - 1,
                gy,
                local,
            ),
            gx,
            gz + 1,
            gy,
            local,
        )
    } else {
        sky
    }
}

/// The heights after the first `n` columns of a chunk were looked at, x by
/// x and within each x z by z; `heights` holds the highest row of each
/// column, the column of cell `(x, z)` at `x + 34 * z`.
pub open spec fn sky_after(sky: Map<u64, i32>, chunk: ChunkPosition, heights: Seq<u32>, n: nat) -> Map<
    u64,
    i32,
>
    decreases n,
{
    if n == 0 {
        sky
    } else {
        let c = (n - 1) as int;
        sky_after_column(
            sky_after(sky, chunk, heights, (n - 1) as nat),
            chunk,
            c / 34,
            c % 34,
            heights[c / 34 + (c % 34) * 34] as int,
        )
    }
}

/// Looking at one column only adds heights, and leaves that column with one.
pub proof fn lemma_sky_after_column(sky: Map<u64, i32>, chunk: ChunkPosition, x: int, z: int, local: int)
    ensures
        forall|k: u64|
            sky.contains_key(k) ==> #[trigger] sky_after_column(sky, chunk, x, z, local).contains_key(k),
        sky_after_column(sky, chunk, x, z, local).contains_key(
            column_key(world_axis(x, chunk.x as int), world_axis(z, chunk.z as int)),
        ),
{
    let gx = world_axis(x, chunk.x as int);
    let gy = world_axis(local, chunk.y as int);
    let gz = world_axis(z, chunk.z as int);
    let s0 = sky.insert(column_key(gx, gz), gy as i32);
    let s1 = sky_after_neighbour(s0, gx - 1, gz, gy, local);
    let s2 = sky_after_neighbour(s1, gx + 1, gz, gy, local);
    let s3 = sky_after_neighbour(s2, gx, gz - 1, gy, local);
    let s4 = sky_after_neighbour(s3, gx, gz + 1, gy, local);
    assert forall|k: u64| s0.contains_key(k) implies s4.contains_key(k) by {
        assert(s1.contains_key(k));
        assert(s2.contains_key(k));
        assert(s3.contains_key(k));
    }
}

/// Whether no column of a chunk's footprint has a height above `top`.
pub open spec fn sky_within(sky: Map<u64, i32>, chunk: ChunkPosition, top: int) -> bool {
    forall|x: int, z: int|
        0 <= x < 34 && 0 <= z < 34 ==> {
            let key = #[trigger] column_key(world_axis(x, chunk.x as int), world_axis(z, chunk.z as int));
            sky.contains_key(key) ==> sky[key] <= top
        }
}

/// A bound on the heights over a footprint stays one when it grows.
pub proof fn lemma_sky_within_grows(sky: Map<u64, i32>, chunk: ChunkPosition, low: int, high: int)
    requires
        low <= high,
        sky_within(sky, chunk, low),
    ensures
        sky_within(sky, chunk, high),
{
    assert forall|x: int, z: int| 0 <= x < 34 && 0 <= z < 34 implies {
        let key = #[trigger] column_key(world_axis(x, chunk.x as int), world_axis(z, chunk.z as int));
        sky.contains_key(key) ==> sky[key] <= high
    } by {
        let key = column_key(world_axis(x, chunk.x as int), world_axis(z, chunk.z as int));
        if sky.contains_key(key) {
            assert(sky[key] <= low);
        }
    }
}

/// After one column was looked at, each height is the one from before or the
/// world height of the row that was seen.
pub proof fn lemma_sky_after_column_values(
    sky: Map<u64, i32>,
    chunk: ChunkPosition,
    x: int,
    z: int,
    local: int,
)
    ensures
        forall|k: u64| #[trigger]
            sky_after_column(sky, chunk, x, z, local).contains_key(k) ==> (sky.contains_key(k)
                && sky_after_column(sky, chunk, x, z, local)[k] == sky[k]) || sky_after_column(
                sky,
                chunk,
                x,
                z,
                local,
            )[k] == world_axis(local, chunk.y as int) as i32,
{
    let gx = world_axis(x, chunk.x as int);
    let gy = world_axis(local, chunk.y as int);
    let gz = world_axis(z, chunk.z as int);
    let s0 = sky.insert(column_key(gx, gz), gy as i32);
    let s1 = sky_after_neighbour(s0, gx - 1, gz, gy, local);
    let s2 = sky_after_neighbour(s1, gx + 1, gz, gy, local);
    let s3 = sky_after_neighbour(s2, gx, gz - 1, gy, local);
    let s4 = sky_after_neighbour(s3, gx, gz + 1, gy, local);
    assert forall|k: u64| #[trigger] s4.contains_key(k) implies (sky.contains_key(k) && s4[k] == sky[k])
        || s4[k] == gy as i32 by {
        assert(s3.contains_key(k) ==> (sky.contains_key(k) && s3[k] == sky[k]) || s3[k] == gy as i32) by {
            assert(s2.contains_key(k) ==> (sky.contains_key(k) && s2[k] == sky[k]) || s2[k]
                == gy as i32) by {
                assert(s1.contains_key(k) ==> (sky.contains_key(k) && s1[k] == sky[k]) || s1[k]
                    == gy as i32);
            }
        }
    }
}

/// Looking at the columns of a chunk lifts no height of its footprint above
/// a bound that lies at or above the chunk's top.
#[verifier::rlimit(40)]
pub proof fn lemma_sky_after_within(
    sky: Map<u64, i32>,
    chunk: ChunkPosition,
    heights: Seq<u32>,
    n: nat,
    top: int,
)
    requires
        chunk.in_world(),
        heights.len() == 1156,
        forall|i: int| 0 <= i < heights.len() ==> #[trigger] heights[i] < 34,
        n <= 1156,
        top >= 32 * chunk.y + 32,
        sky_within(sky, chunk, top),
    ensures
        sky_within(sky_after(sky, chunk, heights, n), chunk, top),
    decreases n,
{
    if n > 0 {
        lemma_sky_after_within(sky, chunk, heights, (n - 1) as nat, top);
        let before = sky_after(sky, chunk, heights, (n - 1) as nat);
        let c = (n - 1) as int;
        let local = heights[c / 34 + (c % 34) * 34] as int;
        lemma_sky_after_column_values(before, chunk, c / 34, c % 34, local);
        let after = sky_after_column(before, chunk, c / 34, c % 34, local);
        assert forall|x: int, z: int| 0 <= x < 34 && 0 <= z < 34 implies {
            let key = #[trigger] column_key(world_axis(x, chunk.x as int), world_axis(z, chunk.z as int));
            after.contains_key(key) ==> after[key] <= top
        } by {
            let key = column_key(world_axis(x, chunk.x as int), world_axis(z, chunk.z as int));
            if after.contains_key(key) {
                if before.contains_key(key) && after[key] == before[key] {
                } else {
                    assert(after[key] == world_axis(local, chunk.y as int) as i32);
                }
            }
        }
    }
}

/// Looking at columns only adds heights: no column loses its own.
pub proof fn lemma_sky_after_keeps(sky: Map<u64, i32>, chunk: ChunkPosition, heights: Seq<u32>, n: nat)
    ensures
        forall|k: u64| sky.contains_key(k) ==> #[trigger] sky_after(sky, chunk, heights, n).contains_key(k),
    decreases n,
{
    if n > 0 {
        lemma_sky_after_keeps(sky, chunk, heights, (n - 1) as nat);
        let c = (n - 1) as int;
        lemma_sky_after_column(
            sky_after(sky, chunk, heights, (n - 1) as nat),
            chunk,
            c / 34,
            c % 34,
            heights[c / 34 + (c % 34) * 34] as int,
        );
    }
}

/// Once a chunk's columns were looked at, each of them has a height.
pub proof fn lemma_sky_after_covers(sky: Map<u64, i32>, chunk: ChunkPosition, heights: Seq<u32>, n: nat)
    requires
        n <= 1156,
    ensures
        forall|x: int, z: int|
            0 <= x < 34 && 0 <= z < 34 && x * 34 + z < n ==> sky_after(
                sky,
                chunk,
                heights,
                n,
            ).contains_key(
                #[trigger] column_key(world_axis(x, chunk.x as int), world_axis(z, chunk.z as int)),
            ),
    decreases n,
{
    if n > 0 {
        lemma_sky_after_covers(sky, chunk, heights, (n - 1) as nat);
        let before = sky_after(sky, chunk, heights, (n - 1) as nat);
        let after = sky_after(sky, chunk, heights, n);
        let c = (n - 1) as int;
        lemma_sky_after_column(before, chunk, c / 34, c % 34, heights[c / 34 + (c % 34) * 34] as int);
        assert forall|x: int, z: int|
            0 <= x < 34 && 0 <= z < 34 && x * 34 + z < n implies after.contains_key(
            #[trigger] column_key(world_axis(x, chunk.x as int), world_axis(z, chunk.z as int)),
        ) by {
            if x * 34 + z < n - 1 {
                assert(before.contains_key(
                    column_key(world_axis(x, chunk.x as int), world_axis(z, chunk.z as int)),
                ));
            } else {
                assert(x == c / 34 && z == c % 34);
            }
        }
    }
}

/// Sky heights by column.
pub struct SkyHeights {
    heights: HashMap<u64, i32>,
}

impl View for SkyHeights {
    type V = Map<u64, i32>;

    closed spec fn view(&self) -> Map<u64, i32> {
        self.heights@
    }
}

impl SkyHeights {
    /// No column has a height yet.
    pub fn new() -> (sky: Self)
        ensures
            sky@ == Map::<u64, i32>::empty(),
    {
        SkyHeights { heights: HashMap::new() }
    }

    /// The height recorded for the column `(gx, gz)`.
    pub fn get(&self, gx: i32, gz: i32) -> (height: Option<i32>)
        ensures
            height == (if self@.contains_key(column_key(gx as int, gz as int)) {
                Some(self@[column_key(gx as int, gz as int)])
            } else {
                None
            }),
    {
        broadcast use vstd::std_specs::hash::group_hash_axioms;
        let key = key_of(gx, gz);
        match self.heights.get(&key) {
            Some(height) => Some(*height),
            None => None,
        }
    }

    /// Whether the column `(gx, gz)` has a height.
    pub fn contains_key(&self, gx: i32, gz: i32) -> (found: bool)
        ensures
            found == self@.contains_key(column_key(gx as int, gz as int)),
    {
        broadcast use vstd::std_specs::hash::group_hash_axioms;
        let key = key_of(gx, gz);
        self.heights.contains_key(&key)
    }

    /// Decides `sky_within` for a chunk in the world.
    #[verifier::rlimit(40)]
    pub fn within(&self, chunk: ChunkPosition, top: i32) -> (b: bool)
        requires
            chunk.in_world(),
        ensures
            b == sky_within(self@, chunk, top as int),
    {
        let mut x: u32 = 0;
        while x < 34
            invariant
                x <= 34,
                chunk.in_world(),
                forall|i: int, k: int|
                    0 <= i < x && 0 <= k < 34 ==> {
                        let key = #[trigger] column_key(
                            world_axis(i, chunk.x as int),
                            world_axis(k, chunk.z as int),
                        );
                        self@.contains_key(key) ==> self@[key] <= top
                    },
            decreases 34 - x,
        {
            let mut z: u32 = 0;
            while z < 34
                invariant
                    x < 34,
                    z <= 34,
                    chunk.in_world(),
                    forall|i: int, k: int|
                        0 <= i < x && 0 <= k < 34 ==> {
                            let key = #[trigger] column_key(
                                world_axis(i, chunk.x as int),
                                world_axis(k, chunk.z as int),
                            );
                            self@.contains_key(key) ==> self@[key] <= top
                        },
                    forall|k: int|
                        0 <= k < z ==> {
                            let key = #[trigger] column_key(
                                world_axis(x as int, chunk.x as int),
                                world_axis(k, chunk.z as int),
                            );
                            self@.contains_key(key) ==> self@[key] <= top
                        },
                decreases 34 - z,
            {
                let gx = to_world_position(x, chunk.x);
                let gz = to_world_position(z, chunk.z);
                if let Some(height) = self.get(gx, gz) {
                    if height > top {
                        assert(!sky_within(self@, chunk, top as int)) by {
                            let key = column_key(
                                world_axis(x as int, chunk.x as int),
                                world_axis(z as int, chunk.z as int),
                            );
                            assert(self@.contains_key(key) && self@[key] > top);
                        }
                        return false;
                    }
                }
                z += 1;
            }
            x += 1;
        }
        true
    }

    /// The highest sky height over the footprint of a chunk in the world:
    /// `None` if none of its columns has a height.
    #[verifier::rlimit(40)]
    pub fn highest_over(&self, chunk: ChunkPosition) -> (highest: Option<i32>)
        requires
            chunk.in_world(),
        ensures
            match highest {
                Some(top) => sky_within(self@, chunk, top as int) && !sky_within(self@, chunk, top - 1),
                None => forall|top: int| sky_within(self@, chunk, top),
            },
    {
        let mut highest: Option<i32> = None;
        let mut x: u32 = 0;
        while x < 34
            invariant
                x <= 34,
                chunk.in_world(),
                forall|i: int, k: int|
                    0 <= i < x && 0 <= k < 34 ==> {
                        let key = #[trigger] column_key(
                            world_axis(i, chunk.x as int),
                            world_axis(k, chunk.z as int),
                        );
                        self@.contains_key(key) ==> highest is Some && self@[key] <= highest->0
                    },
                highest matches Some(top) ==> !sky_within(self@, chunk, top - 1),
            decreases 34 - x,
        {
            let mut z: u32 = 0;
            while z < 34
                invariant
                    x < 34,
                    z <= 34,
                    chunk.in_world(),
                    forall|i: int, k: int|
                        0 <= i < x && 0 <= k < 34 ==> {
                            let key = #[trigger] column_key(
                                world_axis(i, chunk.x as int),
                                world_axis(k, chunk.z as int),
                            );
                            self@.contains_key(key) ==> highest is Some && self@[key] <= highest->0
                        },
                    forall|k: int|
                        0 <= k < z ==> {
                            let key = #[trigger] column_key(
                                world_axis(x as int, chunk.x as int),
                                world_axis(k, chunk.z as int),
                            );
                            self@.contains_key(key) ==> highest is Some && self@[key] <= highest->0
                        },
                    highest matches Some(top) ==> !sky_within(self@, chunk, top - 1),
                decreases 34 - z,
            {
                let gx = to_world_position(x, chunk.x);
                let gz = to_world_position(z, chunk.z);
                if let Some(height) = self.get(gx, gz) {
                    let higher = match highest {
                        Some(top) => height > top,
                        None => true,
                    };
                    if higher {
                        highest = Some(height);
                        assert(!sky_within(self@, chunk, height - 1)) by {
                            let key = column_key(
                                world_axis(x as int, chunk.x as int),
                                world_axis(z as int, chunk.z as int),
                            );
                            assert(self@.contains_key(key) && self@[key] > height - 1);
                        }
                    }
                }
                z += 1;
            }
            x += 1;
        }
        highest
    }

    /// Records `height` for the column `(gx, gz)`.
    pub fn insert(&mut self, gx: i32, gz: i32, height: i32)
        ensures
            final(self)@ == old(self)@.insert(column_key(gx as int, gz as int), height),
    {
        broadcast use vstd::std_specs::hash::group_hash_axioms;
        let key = key_of(gx, gz);
        self.heights.insert(key, height);
    }
}

} // verus!
