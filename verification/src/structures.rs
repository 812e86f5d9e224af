//! Single-voxel edits, and the structures that are built from them.

use crate::chunk::Chunk;
use crate::chunk::modification_valid;
use crate::chunk::queued;
use crate::chunk::queued_abroad;
use crate::items::Items;
use crate::positions::cell_axis;
use crate::positions::chunk_axis;
use crate::positions::ChunkPosition;
use crate::positions::lemma_chunk_axis_bounds;
use crate::positions::world_position_to_chunk_position;
use crate::positions::world_position_to_position_in_chunk;
use crate::positions::WorldPosition;
use crate::queue::edit_key;
use crate::shape::cell_index;
use crate::shape::linearize;
use vstd::prelude::*;

verus! {

/// A pending edit of one cell: `force` overwrites whatever is there, an edit
/// without it only fills a cell that holds air.
#[derive(Clone, Copy, Debug, PartialEq, Eq, Structural)]
pub struct Modification {
    pub id: u16,
    pub force: bool,
    pub position: usize,
}

/// A pending raise of one cell's light.
#[derive(Clone, Copy, Debug, PartialEq, Eq, Structural)]
pub struct LightModification {
    pub light_level: u8,
    pub position: usize,
}

/// The two queues of a chunk.
pub struct Pending {
    /// Edits of the chunk itself.
    pub own: Seq<((usize, i32, i32, i32), Modification)>,
    /// Edits of other chunks.
    pub abroad: Seq<((usize, i32, i32, i32), Modification)>,
}

/// The chunk that holds a voxel.
pub open spec fn chunk_of(world_position: WorldPosition) -> ChunkPosition {
    ChunkPosition {
        x: chunk_axis(world_position.x as int) as i32,
        y: chunk_axis(world_position.y as int) as i32,
        z: chunk_axis(world_position.z as int) as i32,
    }
}

/// The index of a voxel's cell in the chunk that holds it.
pub open spec fn cell_of(world_position: WorldPosition) -> int {
    cell_index(
        cell_axis(world_position.x as int),
        cell_axis(world_position.y as int),
        cell_axis(world_position.z as int),
    )
}

/// The queues of the chunk at `own` after an edit of the voxel at
/// `world_position` was handed to it. An edit of the chunk itself goes to its
/// own queue. An edit of another chunk goes to the queue for other chunks,
/// and with it its mirrors: the one that lies in the halo of the chunk itself
/// goes to the chunk's own queue at once.
pub open spec fn handed_in(
    pending: Pending,
    own: ChunkPosition,
    world_position: WorldPosition,
    modification: Modification,
) -> Pending {
    let target = chunk_of(world_position);
    if target == own {
        Pending {
            own: queued(pending.own, edit_key(modification.position, target), modification),
            abroad: pending.abroad,
        }
    } else {
        queued_abroad(pending, own, target, modification)
    }
}

/// The `n`th edit of the tree that stands on the voxel at `root`: six of wood,
/// forced, straight up from the root; then a crown of leaves, five by five
/// wide and four high, from one below the trunk's top upwards, x by x, within
/// each x z by z, within each z from the bottom up. Leaves give way to
/// whatever is there.
pub open spec fn tree_edit(root: WorldPosition, n: int) -> (WorldPosition, Modification) {
    if n < 6 {
        let at = WorldPosition { x: root.x, y: (root.y + n) as i32, z: root.z };
        (at, Modification { id: 5, force: true, position: cell_of(at) as usize })
    } else {
        let at = WorldPosition {
            x: (root.x + (n - 6) / 20 - 2) as i32,
            y: (root.y + 6 + (n - 6) % 4 - 1) as i32,
            z: (root.z + ((n - 6) / 4) % 5 - 2) as i32,
        };
        (at, Modification { id: 6, force: false, position: cell_of(at) as usize })
    }
}

/// Number of edits in a tree.
pub const TREE_EDITS: usize = 106;

/// The queues of the chunk at `own` after the first `n` edits of the tree on
/// `root` were handed to it.
pub open spec fn tree_handed_in(pending: Pending, own: ChunkPosition, root: WorldPosition, n: nat) -> Pending
    decreases n,
{
    if n == 0 {
        pending
    } else {
        let edit = tree_edit(root, n - 1);
        handed_in(tree_handed_in(pending, own, root, (n - 1) as nat), own, edit.0, edit.1)
    }
}

/// Where the leaf with offsets `a`, `b`, `c` into the crown stands among the
/// edits of a tree, and what it is.
proof fn lemma_leaf_edit(root: WorldPosition, a: int, b: int, c: int)
    requires
        0 <= a < 5,
        0 <= b < 5,
        0 <= c < 4,
    ensures
        ({
            let at = WorldPosition {
                x: (root.x + a - 2) as i32,
                y: (root.y + 6 + c - 1) as i32,
                z: (root.z + b - 2) as i32,
            };
            tree_edit(root, 6 + a * 20 + b * 4 + c) == (
                at,
                Modification { id: 6, force: false, position: cell_of(at) as usize },
            )
        }),
{
    let n = 6 + a * 20 + b * 4 + c;
    assert((n - 6) / 20 == a);
    assert((n - 6) % 4 == c);
    assert((n - 6) / 4 == a * 5 + b);
    assert(((n - 6) / 4) % 5 == b);
}

/// Whether a tree on `root` stays within the world's coordinates.
pub open spec fn tree_fits(root: WorldPosition) -> bool {
    &&& i32::MIN + 2 <= root.x <= i32::MAX - 2
    &&& root.y <= i32::MAX - 8
    &&& i32::MIN + 2 <= root.z <= i32::MAX - 2
}

/// Hands an edit of the voxel at `world_position` to `current_chunk`, which
/// queues it for itself or for the chunk that holds the voxel.
pub fn add_modification(modification: Modification, world_position: WorldPosition, current_chunk: &mut Chunk)
    requires
        old(current_chunk).wf(),
        modification_valid(modification),
    ensures
        final(current_chunk).wf(),
        (Pending {
            own: final(current_chunk).modifications@,
            abroad: final(current_chunk).other_chunks_modifications@,
        }) == handed_in(
            Pending {
                own: old(current_chunk).modifications@,
                abroad: old(current_chunk).other_chunks_modifications@,
            },
            old(current_chunk).position,
            world_position,
            modification,
        ),
        *final(current_chunk) == (Chunk {
            modifications: final(current_chunk).modifications,
            other_chunks_modifications: final(current_chunk).other_chunks_modifications,
            ..*old(current_chunk)
        }),
{
    let chunk_position = world_position_to_chunk_position(world_position);
    proof {
        lemma_chunk_axis_bounds(world_position.x);
        lemma_chunk_axis_bounds(world_position.y);
        lemma_chunk_axis_bounds(world_position.z);
    }
    current_chunk.add_modification_no_update(modification, chunk_position);
}

fn add_tree_edit(at: WorldPosition, id: u16, force: bool, current_chunk: &mut Chunk)
    requires
        old(current_chunk).wf(),
        id == 5 || id == 6,
    ensures
        final(current_chunk).wf(),
        (Pending {
            own: final(current_chunk).modifications@,
            abroad: final(current_chunk).other_chunks_modifications@,
        }) == handed_in(
            Pending {
                own: old(current_chunk).modifications@,
                abroad: old(current_chunk).other_chunks_modifications@,
            },
            old(current_chunk).position,
            at,
            Modification { id, force, position: cell_of(at) as usize },
        ),
        *final(current_chunk) == (Chunk {
            modifications: final(current_chunk).modifications,
            other_chunks_modifications: final(current_chunk).other_chunks_modifications,
            ..*old(current_chunk)
        }),
{
    let cell = world_position_to_position_in_chunk(at);
    add_modification(
        Modification { id, force, position: linearize(cell[0], cell[1], cell[2]) },
        at,
        current_chunk,
    );
}

/// Plants a tree on the voxel at `world_position`: hands each of its edits
/// to `current_chunk`, in the order of `tree_edit`.
#[verifier::rlimit(40)]
pub fn generate_tree(world_position: WorldPosition, current_chunk: &mut Chunk)
    requires
        old(current_chunk).wf(),
        tree_fits(world_position),
    ensures
        final(current_chunk).wf(),
        (Pending {
            own: final(current_chunk).modifications@,
            abroad: final(current_chunk).other_chunks_modifications@,
        }) == tree_handed_in(
            Pending {
                own: old(current_chunk).modifications@,
                abroad: old(current_chunk).other_chunks_modifications@,
            },
            old(current_chunk).position,
            world_position,
            TREE_EDITS as nat,
        ),
        *final(current_chunk) == (Chunk {
            modifications: final(current_chunk).modifications,
            other_chunks_modifications: final(current_chunk).other_chunks_modifications,
            ..*old(current_chunk)
        }),
{
    let ghost start = Pending {
        own: current_chunk.modifications@,
        abroad: current_chunk.other_chunks_modifications@,
    };
    let ghost own = current_chunk.position;
    let mut i: i32 = 0;
    while i < 6
        invariant
            0 <= i <= 6,
            current_chunk.wf(),
            tree_fits(world_position),
            own == old(current_chunk).position,
            (Pending {
                own: current_chunk.modifications@,
                abroad: current_chunk.other_chunks_modifications@,
            }) == tree_handed_in(start, own, world_position, i as nat),
            *current_chunk == (Chunk {
                modifications: current_chunk.modifications,
                other_chunks_modifications: current_chunk.other_chunks_modifications,
                ..*old(current_chunk)
            }),
        decreases 6 - i,
    {
        let at = WorldPosition { x: world_position.x, y: world_position.y + i, z: world_position.z };
        add_tree_edit(at, Items::Wood.id(), true, current_chunk);
        i += 1;
    }
    let mut i: i32 = -2;
    while i < 3
        invariant
            -2 <= i <= 3,
            current_chunk.wf(),
            tree_fits(world_position),
            own == old(current_chunk).position,
            (Pending {
                own: current_chunk.modifications@,
                abroad: current_chunk.other_chunks_modifications@,
            }) == tree_handed_in(start, own, world_position, (6 + (i + 2) * 20) as nat),
            *current_chunk == (Chunk {
                modifications: current_chunk.modifications,
                other_chunks_modifications: current_chunk.other_chunks_modifications,
                ..*old(current_chunk)
            }),
        decreases 3 - i,
    {
        let mut j: i32 = -2;
        while j < 3
            invariant
                -2 <= i < 3,
                -2 <= j <= 3,
                current_chunk.wf(),
                tree_fits(world_position),
                own == old(current_chunk).position,
                (Pending {
                    own: current_chunk.modifications@,
                    abroad: current_chunk.other_chunks_modifications@,
                }) == tree_handed_in(
                    start,
                    own,
                    world_position,
                    (6 + (i + 2) * 20 + (j + 2) * 4) as nat,
                ),
                *current_chunk == (Chunk {
                    modifications: current_chunk.modifications,
                    other_chunks_modifications: current_chunk.other_chunks_modifications,
                    ..*old(current_chunk)
                }),
            decreases 3 - j,
        {
            let mut k: i32 = -1;
            while k < 3
                invariant
                    -2 <= i < 3,
                    -2 <= j < 3,
                    -1 <= k <= 3,
                    current_chunk.wf(),
                    tree_fits(world_position),
                    own == old(current_chunk).position,
                    (Pending {
                        own: current_chunk.modifications@,
                        abroad: current_chunk.other_chunks_modifications@,
                    }) == tree_handed_in(
                        start,
                        own,
                        world_position,
                        (6 + (i + 2) * 20 + (j + 2) * 4 + (k + 1)) as nat,
                    ),
                    *current_chunk == (Chunk {
                        modifications: current_chunk.modifications,
                        other_chunks_modifications: current_chunk.other_chunks_modifications,
                        ..*old(current_chunk)
                    }),
                decreases 3 - k,
            {
                let at = WorldPosition {
                    x: world_position.x + i,
                    y: world_position.y + 6 + k,
                    z: world_position.z + j,
                };
                proof {
                    lemma_leaf_edit(world_position, i + 2, j + 2, k + 1);
                }
                add_tree_edit(at, Items::Leave.id(), false, current_chunk);
                k += 1;
            }
            j += 1;
        }
        i += 1;
    }
}

} // verus!
