//! One chunk: its padded grid of cubes, the edits waiting for it, and the
//! edits it holds for its neighbours.

use crate::chunk_filling::ChunkFilling;
use crate::chunk_filling::FillingView;
use crate::chunk_filling::no_samples;
use crate::items::ITEM_COUNT;
use crate::lighting::brightened;
use crate::lighting::cast_columns;
use crate::lighting::lemma_diffuse_brightens;
use crate::lighting::diffuse;
use crate::lighting::diffuse_cells;
use crate::lighting::diffuse_light_from_pos;
use crate::lighting::Glow;
use crate::lighting::MIN_LIGHT_LEVEL;
use crate::lighting::NaturalLightModification;
use crate::lighting::recalculate_diffuse_light;
use crate::lighting::recalculate_natural_light;
use crate::meshing::greedy_mesh;
use crate::meshing::Mesh;
use crate::meshing::mesh_of;
use crate::meshing::MeshModel;
use crate::meshing::no_buffers;
use crate::positions::CHUNK_SIZE;
use crate::positions::ChunkPosition;
use crate::positions::REAL_CHUNK_SIZE;
use crate::positions::to_world_position;
use crate::positions::world_axis;
use crate::positions::WorldPosition;
use crate::queue::edit_key;
use crate::queue::has_key;
use crate::queue::key_chunk;
use crate::queue::keys_distinct;
use crate::queue::lemma_without_key;
use crate::queue::lemma_written_distinct;
use crate::queue::ModificationQueue;
use crate::queue::without_key;
use crate::queue::written;
use crate::shape::cell_index;
use crate::shape::cell_x;
use crate::shape::cell_y;
use crate::shape::cell_z;
use crate::shape::CHUNK_VOLUME;
use crate::shape::delinearize;
use crate::shape::linearize;
use crate::sky::column_key;
use crate::sky::lemma_sky_after_covers;
use crate::sky::lemma_sky_after_within;
use crate::sky::sky_after;
use crate::sky::sky_after_column;
use crate::sky::sky_after_neighbour;
use crate::sky::sky_within;
use crate::sky::SkyHeights;
use crate::structures::Modification;
use crate::structures::Pending;
use crate::structures::TREE_EDITS;
use crate::structures::tree_handed_in;
use crate::world::chunks_valid;
use crate::world::World;
use vstd::prelude::*;

verus! {

/// One voxel: what it is made of, and how bright it is.
#[derive(Clone, Copy, Debug, PartialEq, Eq, Structural)]
pub struct Cube {
    pub id: u16,
    pub natural_light_level: u8,
    pub items_light_level: u8,
}

/// The coordinate of the cell at `position` along an axis (0, 1, 2 for x, y,
/// z).
pub open spec fn cell_coordinate(position: int, axis: int) -> int {
    if axis == 0 {
        cell_x(position)
    } else if axis == 1 {
        cell_y(position)
    } else {
        cell_z(position)
    }
}

/// The index of the cell at `position` after its coordinate along `axis` is
/// set to `to`.
pub open spec fn cell_moved(position: int, axis: int, to: int) -> int {
    cell_index(
        if axis == 0 { to } else { cell_x(position) },
        if axis == 1 { to } else { cell_y(position) },
        if axis == 2 { to } else { cell_z(position) },
    )
}

/// The copy of an edit that the neighbour along `axis` must see in its halo:
/// an edit of the first interior cell goes to the last cell of the chunk
/// before, an edit of the last interior cell to the first cell of the chunk
/// after, any other edit nowhere.
pub open spec fn mirrored(chunk: ChunkPosition, modification: Modification, axis: int) -> Option<
    (ChunkPosition, Modification),
> {
    let c = cell_coordinate(modification.position as int, axis);
    if c == 1 {
        Some(
            (
                chunk.step(axis, -1),
                Modification {
                    position: cell_moved(modification.position as int, axis, 33) as usize,
                    id: modification.id,
                    force: modification.force,
                },
            ),
        )
    } else if c == 32 {
        Some(
            (
                chunk.step(axis, 1),
                Modification {
                    position: cell_moved(modification.position as int, axis, 0) as usize,
                    id: modification.id,
                    force: modification.force,
                },
            ),
        )
    } else {
        None
    }
}

/// A queue after the mirror of an edit along `axis`, if it has one, was
/// written to it.
pub open spec fn with_mirror(
    entries: Seq<((usize, i32, i32, i32), Modification)>,
    chunk: ChunkPosition,
    modification: Modification,
    axis: int,
) -> Seq<((usize, i32, i32, i32), Modification)> {
    match mirrored(chunk, modification, axis) {
        Some((target, mirror)) => written(entries, edit_key(mirror.position, target), mirror),
        None => entries,
    }
}

/// A queue after the mirrors of an edit were written to it, along x, then y,
/// then z.
pub open spec fn with_mirrors(
    entries: Seq<((usize, i32, i32, i32), Modification)>,
    chunk: ChunkPosition,
    modification: Modification,
) -> Seq<((usize, i32, i32, i32), Modification)> {
    with_mirror(
        with_mirror(with_mirror(entries, chunk, modification, 0), chunk, modification, 1),
        chunk,
        modification,
        2,
    )
}

/// Whether an edit names a cell of the grid and a known material.
pub open spec fn modification_valid(modification: Modification) -> bool {
    modification.position < CHUNK_VOLUME && modification.id < ITEM_COUNT
}

/// Whether every edit of a queue is valid and stands under the key of its
/// own cell, and no two have one key.
pub open spec fn entries_valid(entries: Seq<((usize, i32, i32, i32), Modification)>) -> bool {
    &&& forall|i: int|
        0 <= i < entries.len() ==> modification_valid((#[trigger] entries[i]).1) && entries[i].0.0
            == entries[i].1.position
    &&& keys_distinct(entries)
}

/// Whether every edit of a queue is an edit of the chunk at `position`.
pub open spec fn entries_own(entries: Seq<((usize, i32, i32, i32), Modification)>, position: ChunkPosition) -> bool {
    forall|i: int| 0 <= i < entries.len() ==> key_chunk((#[trigger] entries[i]).0) == position
}

/// Whether an edit changes the grid: a forced one always, another only where
/// the cell holds air.
pub open spec fn edit_applies(cubes: Seq<Cube>, modification: Modification) -> bool {
    modification.force || cubes[modification.position as int].id == 0
}

/// The grid after an edit.
pub open spec fn edited(cubes: Seq<Cube>, modification: Modification) -> Seq<Cube> {
    if edit_applies(cubes, modification) {
        cubes.update(
            modification.position as int,
            Cube {
                id: modification.id,
                natural_light_level: cubes[modification.position as int].natural_light_level,
                items_light_level: cubes[modification.position as int].items_light_level,
            },
        )
    } else {
        cubes
    }
}

/// Writing an entry keeps a queue of valid edits valid.
pub proof fn lemma_written_valid(
    entries: Seq<((usize, i32, i32, i32), Modification)>,
    key: (usize, i32, i32, i32),
    modification: Modification,
)
    requires
        entries_valid(entries),
        modification_valid(modification),
        key.0 == modification.position,
    ensures
        entries_valid(written(entries, key, modification)),
{
    let kept = without_key(entries, key);
    lemma_without_key(entries, key);
    lemma_written_distinct(entries, key, modification);
    assert forall|i: int| 0 <= i < kept.len() implies modification_valid((#[trigger] kept[i]).1)
        && kept[i].0.0 == kept[i].1.position by {
        assert(entries.contains(kept[i]));
    }
}

/// Writing an edit of a chunk keeps a queue of edits of that chunk one.
pub proof fn lemma_written_own(
    entries: Seq<((usize, i32, i32, i32), Modification)>,
    key: (usize, i32, i32, i32),
    modification: Modification,
    position: ChunkPosition,
)
    requires
        entries_own(entries, position),
        key_chunk(key) == position,
    ensures
        entries_own(written(entries, key, modification), position),
{
    let kept = without_key(entries, key);
    lemma_without_key(entries, key);
    assert forall|i: int| 0 <= i < kept.len() implies key_chunk((#[trigger] kept[i]).0) == position by {
        assert(entries.contains(kept[i]));
    }
}

/// Whether a chunk has a neighbour on each side that the machine integers can
/// name.
pub open spec fn has_neighbours(chunk: ChunkPosition) -> bool {
    &&& i32::MIN < chunk.x < i32::MAX
    &&& i32::MIN < chunk.y < i32::MAX
    &&& i32::MIN < chunk.z < i32::MAX
}

/// The mirror of a valid edit is a valid edit.
pub proof fn lemma_mirrored_valid(chunk: ChunkPosition, modification: Modification, axis: int)
    requires
        modification_valid(modification),
        0 <= axis < 3,
    ensures
        match mirrored(chunk, modification, axis) {
            Some((target, mirror)) => modification_valid(mirror) && mirror.position == cell_moved(
                modification.position as int,
                axis,
                if cell_coordinate(modification.position as int, axis) == 1 {
                    33
                } else {
                    0
                },
            ),
            None => true,
        },
{
}

/// Writing the mirrors of a valid edit keeps a queue of valid edits valid.
pub proof fn lemma_with_mirrors_valid(
    entries: Seq<((usize, i32, i32, i32), Modification)>,
    chunk: ChunkPosition,
    modification: Modification,
)
    requires
        entries_valid(entries),
        modification_valid(modification),
    ensures
        entries_valid(with_mirror(entries, chunk, modification, 0)),
        entries_valid(with_mirror(with_mirror(entries, chunk, modification, 0), chunk, modification, 1)),
        entries_valid(with_mirrors(entries, chunk, modification)),
{
    lemma_with_mirror_valid(entries, chunk, modification, 0);
    let first = with_mirror(entries, chunk, modification, 0);
    lemma_with_mirror_valid(first, chunk, modification, 1);
    let second = with_mirror(first, chunk, modification, 1);
    lemma_with_mirror_valid(second, chunk, modification, 2);
}

/// Writing one mirror of a valid edit keeps a queue of valid edits valid.
pub proof fn lemma_with_mirror_valid(
    entries: Seq<((usize, i32, i32, i32), Modification)>,
    chunk: ChunkPosition,
    modification: Modification,
    axis: int,
)
    requires
        entries_valid(entries),
        modification_valid(modification),
        0 <= axis < 3,
    ensures
        entries_valid(with_mirror(entries, chunk, modification, axis)),
{
    lemma_mirrored_valid(chunk, modification, axis);
    match mirrored(chunk, modification, axis) {
        Some((target, mirror)) => {
            lemma_written_valid(entries, edit_key(mirror.position, target), mirror);
        },
        None => {},
    }
}

/// A queue after an edit was handed to it: a forced edit is written in any
/// case, another only if no edit of its cell is pending.
pub open spec fn queued(
    entries: Seq<((usize, i32, i32, i32), Modification)>,
    key: (usize, i32, i32, i32),
    modification: Modification,
) -> Seq<((usize, i32, i32, i32), Modification)> {
    if has_key(entries, key) && !modification.force {
        entries
    } else {
        written(entries, key, modification)
    }
}

/// The queues of the chunk at `own` after the mirror along `axis` of an edit
/// of chunk `chunk`, if it has one, was handed to it. A mirror that lies in
/// the halo of the chunk itself is handed to the chunk's own queue, so that
/// its grid shows the edit without waiting for anyone; any other mirror is
/// written to the queue for other chunks.
pub open spec fn mirror_handed(
    pending: Pending,
    own: ChunkPosition,
    chunk: ChunkPosition,
    modification: Modification,
    axis: int,
) -> Pending {
    match mirrored(chunk, modification, axis) {
        Some((target, mirror)) => if target == own {
            Pending {
                own: queued(pending.own, edit_key(mirror.position, target), mirror),
                abroad: pending.abroad,
            }
        } else {
            Pending {
                own: pending.own,
                abroad: written(pending.abroad, edit_key(mirror.position, target), mirror),
            }
        },
        None => pending,
    }
}

/// The queues of the chunk at `own` after the mirrors of an edit of chunk
/// `chunk` were handed to it, along x, then y, then z.
pub open spec fn mirrors_handed(
    pending: Pending,
    own: ChunkPosition,
    chunk: ChunkPosition,
    modification: Modification,
) -> Pending {
    mirror_handed(
        mirror_handed(mirror_handed(pending, own, chunk, modification, 0), own, chunk, modification, 1),
        own,
        chunk,
        modification,
        2,
    )
}

/// The mirrors of an edit of the chunk itself all lie in other chunks: they
/// are written to the queue for other chunks, and the own queue stays.
pub proof fn lemma_own_mirrors_go_abroad(pending: Pending, own: ChunkPosition, modification: Modification)
    requires
        has_neighbours(own),
    ensures
        mirrors_handed(pending, own, own, modification) == (Pending {
            own: pending.own,
            abroad: with_mirrors(pending.abroad, own, modification),
        }),
{
}

/// The queues of the chunk at `own` after an edit of another chunk `chunk`
/// was handed to it. The edit is written to the queue for other chunks if it
/// is forced or no edit of its cell is pending there; where it is written,
/// its mirrors are handed in before it.
pub open spec fn queued_abroad(
    pending: Pending,
    own: ChunkPosition,
    chunk: ChunkPosition,
    modification: Modification,
) -> Pending {
    if has_key(pending.abroad, edit_key(modification.position, chunk)) && !modification.force {
        pending
    } else {
        Pending {
            own: mirrors_handed(pending, own, chunk, modification).own,
            abroad: written(
                mirrors_handed(pending, own, chunk, modification).abroad,
                edit_key(modification.position, chunk),
                modification,
            ),
        }
    }
}

/// Where the column of the cell at `position` stands among the columns.
pub open spec fn column_of(position: int) -> int {
    cell_x(position) + cell_z(position) * 34
}

/// The highest rows after the cell at `position` was seen.
pub open spec fn raised(heights: Seq<u32>, position: int) -> Seq<u32> {
    if cell_y(position) > heights[column_of(position)] {
        heights.update(column_of(position), cell_y(position) as u32)
    } else {
        heights
    }
}

/// Whether `heights` has a row of the grid for each column.
pub open spec fn heights_valid(heights: Seq<u32>) -> bool {
    &&& heights.len() == 1156
    &&& forall|i: int| 0 <= i < heights.len() ==> #[trigger] heights[i] < 34
}

/// What applying edits changes: the grid, the queue for other chunks, and
/// the highest row of each column.
pub struct EditState {
    pub cubes: Seq<Cube>,
    pub queued: Seq<((usize, i32, i32, i32), Modification)>,
    pub heights: Seq<u32>,
}

/// The state after one edit of chunk `chunk` was taken from its queue: where
/// it applies, its mirrors are queued, the cell takes the material, and the
/// cell's row is seen.
pub open spec fn apply_edit(state: EditState, chunk: ChunkPosition, modification: Modification) -> EditState {
    if edit_applies(state.cubes, modification) {
        EditState {
            cubes: edited(state.cubes, modification),
            queued: with_mirrors(state.queued, chunk, modification),
            heights: raised(state.heights, modification.position as int),
        }
    } else {
        state
    }
}

/// The state after every edit of a queue was taken and applied, the newest
/// first.
pub open spec fn apply_edits(
    state: EditState,
    chunk: ChunkPosition,
    entries: Seq<((usize, i32, i32, i32), Modification)>,
) -> EditState
    decreases entries.len(),
{
    if entries.len() == 0 {
        state
    } else {
        apply_edits(apply_edit(state, chunk, entries.last().1), chunk, entries.drop_last())
    }
}

fn raise_neighbour(sky: &mut SkyHeights, nx: i32, nz: i32, gy: i32, local: u32)
    requires
        local < 34,
    ensures
        final(sky)@ == sky_after_neighbour(old(sky)@, nx as int, nz as int, gy as int, local as int),
{
    if !sky.contains_key(nx, nz) {
        sky.insert(nx, nz, gy);
    } else if gy < local as i32 {
        sky.insert(nx, nz, gy);
    }
}

fn raise_column(sky: &mut SkyHeights, chunk: ChunkPosition, x: u32, z: u32, local: u32)
    requires
        chunk.in_world(),
        x < 34,
        z < 34,
        local < 34,
    ensures
        final(sky)@ == sky_after_column(old(sky)@, chunk, x as int, z as int, local as int),
{
    let gx = to_world_position(x, chunk.x);
    let gy = to_world_position(local, chunk.y);
    let gz = to_world_position(z, chunk.z);
    let inserted = match sky.get(gx, gz) {
        None => true,
        Some(height) => height < local as i32,
    };
    if inserted {
        sky.insert(gx, gz, gy);
        raise_neighbour(sky, gx - 1, gz, gy, local);
        raise_neighbour(sky, gx + 1, gz, gy, local);
        raise_neighbour(sky, gx, gz - 1, gy, local);
        raise_neighbour(sky, gx, gz + 1, gy, local);
    }
}

/// The world position of the first interior voxel of the chunk at
/// `position`.
pub open spec fn chunk_origin(position: ChunkPosition) -> [i32; 3] {
    [(32 * position.x) as i32, (32 * position.y) as i32, (32 * position.z) as i32]
}

/// The voxel that the cell at `i` of the chunk at `position` stands for.
pub open spec fn cell_world(position: ChunkPosition, i: int) -> WorldPosition {
    WorldPosition {
        x: world_axis(cell_x(i), position.x as int) as i32,
        y: world_axis(cell_y(i), position.y as int) as i32,
        z: world_axis(cell_z(i), position.z as int) as i32,
    }
}

/// An edit and its mirror agree. Where an edit of a cell next to the halo
/// applies in its chunk, its mirror names, in the neighbouring chunk, the
/// halo cell that stands for the same voxel; and if the edit is forced, or
/// the two cells held the same material before, they hold the same material
/// once both edits are applied.
pub proof fn lemma_mirror_agrees(
    chunk: ChunkPosition,
    modification: Modification,
    axis: int,
    here: Seq<Cube>,
    there: Seq<Cube>,
)
    requires
        chunk.in_world(),
        modification_valid(modification),
        0 <= axis < 3,
        here.len() == CHUNK_VOLUME,
        there.len() == CHUNK_VOLUME,
        edit_applies(here, modification),
        mirrored(chunk, modification, axis) matches Some((target, mirror)) && (modification.force
            || here[modification.position as int].id == there[mirror.position as int].id),
    ensures
        mirrored(chunk, modification, axis) matches Some((target, mirror)) && modification_valid(mirror)
            && cell_world(target, mirror.position as int) == cell_world(
            chunk,
            modification.position as int,
        ) && edited(there, mirror)[mirror.position as int].id == edited(
            here,
            modification,
        )[modification.position as int].id,
{
    lemma_mirrored_valid(chunk, modification, axis);
}

/// A mirror is not mirrored back: along the axis of the seam that it
/// crossed, the mirror of an edit lies in the halo and has no mirror of its
/// own.
pub proof fn lemma_mirror_is_not_mirrored_back(chunk: ChunkPosition, modification: Modification, axis: int)
    requires
        modification_valid(modification),
        0 <= axis < 3,
    ensures
        mirrored(chunk, modification, axis) matches Some((target, mirror)) ==> mirrored(
            target,
            mirror,
            axis,
        ) is None,
{
    lemma_mirrored_valid(chunk, modification, axis);
}

/// The cube that the untouched world has in the cell at `i` of the chunk at
/// `position`.
pub open spec fn terrain_cube(filling: ChunkFilling, position: ChunkPosition, i: int) -> Cube {
    Cube {
        id: filling.block_at(cell_world(position, i)),
        natural_light_level: MIN_LIGHT_LEVEL,
        items_light_level: 0,
    }
}

/// The queues of the chunk at `position` after the trees that stand in its
/// first `n` cells, halo included, were planted, cell by cell.
pub open spec fn planted(pending: Pending, position: ChunkPosition, filling: ChunkFilling, n: nat) -> Pending
    decreases n,
{
    if n == 0 {
        pending
    } else {
        let before = planted(pending, position, filling, (n - 1) as nat);
        if filling.tree_at(cell_world(position, n - 1)) {
            tree_handed_in(before, position, cell_world(position, n - 1), TREE_EDITS as nat)
        } else {
            before
        }
    }
}

/// The highest row of each column after the first `n` cells of a grid were
/// seen, starting from none.
pub open spec fn seen_rows(n: nat) -> Seq<u32>
    decreases n,
{
    if n == 0 {
        Seq::new(1156, |c: int| 0u32)
    } else {
        raised(seen_rows((n - 1) as nat), n - 1)
    }
}

/// The highest row seen in the column at `c` once the first `n` cells of a
/// grid were seen: none before the column's first cell was, then one more
/// with every layer of cells, up to the grid's last.
pub open spec fn row_seen(n: int, c: int) -> int {
    let first = c % 34 + 1156 * (c / 34);
    if n <= first {
        0
    } else if (n - 1 - first) / 34 > 33 {
        33
    } else {
        (n - 1 - first) / 34
    }
}

/// The last row of the grid for each column.
pub open spec fn top_rows() -> Seq<u32> {
    Seq::new(1156, |c: int| 33u32)
}

/// What one more cell changes of what was seen: the row of its own column,
/// if the cell lies higher, and of no other column.
proof fn lemma_row_seen_step(n: int, c: int)
    requires
        1 <= n <= CHUNK_VOLUME,
        0 <= c < 1156,
    ensures
        c != column_of(n - 1) ==> row_seen(n, c) == row_seen(n - 1, c),
        c == column_of(n - 1) ==> row_seen(n, c) == if cell_y(n - 1) > row_seen(n - 1, c) {
            cell_y(n - 1)
        } else {
            row_seen(n - 1, c)
        },
        0 <= row_seen(n - 1, c) <= 33,
{
    let position = n - 1;
    let first = c % 34 + 1156 * (c / 34);
    if c == column_of(position) {
        assert(position == first + 34 * cell_y(position));
    } else if position >= first {
        assert((position - first) % 34 != 0 || (position - first) / 34 > 33);
    }
}

/// What cell after cell has seen of each column is what `row_seen` says.
pub proof fn lemma_seen_rows(n: nat)
    requires
        n <= CHUNK_VOLUME,
    ensures
        seen_rows(n).len() == 1156,
        forall|c: int| 0 <= c < 1156 ==> #[trigger] seen_rows(n)[c] == row_seen(n as int, c),
    decreases n,
{
    if n > 0 {
        lemma_seen_rows((n - 1) as nat);
        let before = seen_rows((n - 1) as nat);
        let after = seen_rows(n);
        let position = (n - 1) as int;
        assert(0 <= column_of(position) < 1156);
        assert forall|c: int| 0 <= c < 1156 implies #[trigger] after[c] == row_seen(n as int, c) by {
            assert(before[c] == row_seen(n - 1, c));
            lemma_row_seen_step(n as int, c);
        }
    }
}

/// Once every cell of a grid was seen, the highest row seen in each column
/// is the grid's last.
pub proof fn lemma_seen_rows_full()
    ensures
        seen_rows(CHUNK_VOLUME as nat) == top_rows(),
{
    lemma_seen_rows(CHUNK_VOLUME as nat);
    assert(seen_rows(CHUNK_VOLUME as nat) =~= top_rows());
}

/// The rows seen in a grid are rows of the grid.
pub proof fn lemma_seen_rows_valid(n: nat)
    requires
        n <= CHUNK_VOLUME,
    ensures
        heights_valid(seen_rows(n)),
    decreases n,
{
    if n > 0 {
        lemma_seen_rows_valid((n - 1) as nat);
    }
}

/// A chunk as filling leaves it.
pub struct Filled {
    pub cubes: Seq<Cube>,
    /// The edits that wait for other chunks.
    pub queued: Seq<((usize, i32, i32, i32), Modification)>,
    /// The raises of light that wait for other chunks.
    pub lights: Seq<(NaturalLightModification, ChunkPosition)>,
    /// The sky heights of the world.
    pub sky: Map<u64, i32>,
}

/// What filling makes of the chunk at `position`, from its samples, its two
/// queues of edits `own` and `abroad`, its queue `lights` for other chunks,
/// the other chunks and the sky heights. Each cell takes the material of the
/// untouched world and the least light, and the trees that stand in the
/// cells are planted. The chunk's own edits are applied, and the sky heights
/// brought up to date. Sky light is cast down every column and then spread.
pub open spec fn filled(
    position: ChunkPosition,
    filling: ChunkFilling,
    own: Seq<((usize, i32, i32, i32), Modification)>,
    abroad: Seq<((usize, i32, i32, i32), Modification)>,
    lights: Seq<(NaturalLightModification, ChunkPosition)>,
    others: Map<u128, Chunk>,
    sky: Map<u64, i32>,
) -> Filled {
    let pending = planted(Pending { own, abroad }, position, filling, CHUNK_VOLUME as nat);
    let end = apply_edits(
        EditState {
            cubes: Seq::new(CHUNK_VOLUME as nat, |i: int| terrain_cube(filling, position, i)),
            queued: pending.abroad,
            heights: top_rows(),
        },
        position,
        pending.own,
    );
    let first = if pending.own.len() > 0 {
        sky_after(sky, position, end.heights, 1156)
    } else {
        sky
    };
    let second = sky_after(first, position, end.heights, 1156);
    let glow = diffuse_cells(
        Glow { cubes: cast_columns(end.cubes, position, filling, others, second, 1156), abroad: lights },
        position,
        CHUNK_VOLUME as nat,
    );
    Filled { cubes: glow.cubes, queued: end.queued, lights: glow.abroad, sky: second }
}

/// The state after every pending raise of light was taken, the newest first,
/// and spread from its cell as the first of a spread.
pub open spec fn apply_lights(state: Glow, chunk: ChunkPosition, lights: Seq<NaturalLightModification>) -> Glow
    decreases lights.len(),
{
    if lights.len() == 0 {
        state
    } else {
        apply_lights(
            diffuse(
                state,
                chunk,
                cell_x(lights.last().position as int),
                cell_y(lights.last().position as int),
                cell_z(lights.last().position as int),
                lights.last().light_level,
                true,
            ),
            chunk,
            lights.drop_last(),
        )
    }
}

/// Spreading pending raises changes nothing but sky light and lowers none.
pub proof fn lemma_apply_lights_brightens(
    state: Glow,
    chunk: ChunkPosition,
    lights: Seq<NaturalLightModification>,
)
    requires
        state.cubes.len() == CHUNK_VOLUME,
        lights_valid(lights),
    ensures
        brightened(state.cubes, apply_lights(state, chunk, lights).cubes),
    decreases lights.len(),
{
    if lights.len() > 0 {
        let position = lights.last().position as int;
        lemma_diffuse_brightens(
            state,
            chunk,
            cell_x(position),
            cell_y(position),
            cell_z(position),
            lights.last().light_level,
            true,
        );
        let next = diffuse(
            state,
            chunk,
            cell_x(position),
            cell_y(position),
            cell_z(position),
            lights.last().light_level,
            true,
        );
        lemma_apply_lights_brightens(next, chunk, lights.drop_last());
    }
}

/// One row of zeros for each column.
fn no_rows() -> (heights: Vec<u32>)
    ensures
        heights@ == Seq::new(1156, |c: int| 0u32),
        heights_valid(heights@),
{
    let mut heights: Vec<u32> = Vec::new();
    let mut c: usize = 0;
    while c < 1156
        invariant
            c <= 1156,
            heights@.len() == c,
            forall|i: int| 0 <= i < c ==> heights@[i] == 0,
        decreases 1156 - c,
    {
        heights.push(0);
        c += 1;
    }
    assert(heights@ =~= Seq::new(1156, |c: int| 0u32));
    heights
}

/// A chunk of the world.
pub struct Chunk {
    /// The grid, halo included, in the order of `cell_index`.
    pub cubes: Vec<Cube>,
    pub position: ChunkPosition,
    pub mesh: Mesh,
    /// Edits of this chunk's own grid that are not applied yet.
    pub modifications: ModificationQueue,
    /// Raises of this chunk's own light that are not applied yet.
    pub natural_light_modifications: Vec<NaturalLightModification>,
    /// Edits that wait to be handed to other chunks.
    pub other_chunks_modifications: ModificationQueue,
    /// Raises of light that wait to be handed to other chunks.
    pub other_chunks_natural_light_modifications: Vec<(NaturalLightModification, ChunkPosition)>,
    pub filled: bool,
    pub drawn: bool,
    pub update_count: u32,
    pub chunk_filling: ChunkFilling,
}

/// A chunk with its queues as the sequences that they hold.
pub struct ChunkView {
    pub cubes: Seq<Cube>,
    pub position: ChunkPosition,
    pub mesh: MeshModel,
    pub modifications: Seq<((usize, i32, i32, i32), Modification)>,
    pub natural_light_modifications: Seq<NaturalLightModification>,
    pub other_chunks_modifications: Seq<((usize, i32, i32, i32), Modification)>,
    pub other_chunks_natural_light_modifications: Seq<(NaturalLightModification, ChunkPosition)>,
    pub filled: bool,
    pub drawn: bool,
    pub update_count: u32,
    pub chunk_filling: FillingView,
}

/// The chunk at `position` as it is first made: air without light, nothing
/// pending, no mesh, no samples, neither filled nor drawn.
pub open spec fn fresh_chunk(position: ChunkPosition) -> ChunkView {
    ChunkView {
        cubes: Seq::new(
            CHUNK_VOLUME as nat,
            |i: int| Cube { id: 0, natural_light_level: 0, items_light_level: 0 },
        ),
        position,
        mesh: MeshModel { groups: Seq::empty(), buffers: no_buffers() },
        modifications: Seq::empty(),
        natural_light_modifications: Seq::empty(),
        other_chunks_modifications: Seq::empty(),
        other_chunks_natural_light_modifications: Seq::empty(),
        filled: false,
        drawn: false,
        update_count: 0,
        chunk_filling: no_samples(),
    }
}

impl View for Chunk {
    type V = ChunkView;

    open spec fn view(&self) -> ChunkView {
        ChunkView {
            cubes: self.cubes@,
            position: self.position,
            mesh: self.mesh@,
            modifications: self.modifications@,
            natural_light_modifications: self.natural_light_modifications@,
            other_chunks_modifications: self.other_chunks_modifications@,
            other_chunks_natural_light_modifications: self.other_chunks_natural_light_modifications@,
            filled: self.filled,
            drawn: self.drawn,
            update_count: self.update_count,
            chunk_filling: self.chunk_filling@,
        }
    }
}

/// Whether every pending raise of light names a cell of the grid.
pub open spec fn lights_valid(lights: Seq<NaturalLightModification>) -> bool {
    forall|i: int| 0 <= i < lights.len() ==> (#[trigger] lights[i]).position < CHUNK_VOLUME
}

/// Whether every pending raise of light for another chunk names a cell of the
/// grid.
pub open spec fn foreign_lights_valid(
    lights: Seq<(NaturalLightModification, ChunkPosition)>,
) -> bool {
    forall|i: int| 0 <= i < lights.len() ==> (#[trigger] lights[i]).0.position < CHUNK_VOLUME
}

/// Whether a grid has every cell, each of a known material.
pub open spec fn cubes_valid(cubes: Seq<Cube>) -> bool {
    &&& cubes.len() == CHUNK_VOLUME
    &&& forall|i: int| 0 <= i < cubes.len() ==> (#[trigger] cubes[i]).id < ITEM_COUNT
}

impl Chunk {
    /// Whether the chunk is well formed: the grid is whole, every material is
    /// known, every pending edit names a cell and a material and stands
    /// under the key of its cell, the edits of the own queue are edits of this
    /// chunk, no two pending edits in one queue have one key, and a chunk
    /// that was drawn lies in the world.
    pub open spec fn wf(&self) -> bool {
        &&& self.drawn ==> self.position.in_world()
        &&& cubes_valid(self.cubes@)
        &&& entries_valid(self.modifications@)
        &&& entries_own(self.modifications@, self.position)
        &&& entries_valid(self.other_chunks_modifications@)
        &&& lights_valid(self.natural_light_modifications@)
        &&& foreign_lights_valid(self.other_chunks_natural_light_modifications@)
    }

    /// Whether this chunk is what `fill_chunk` makes of the chunk `before`,
    /// among the chunks `others`, taking the sky heights from `sky_before` to
    /// `sky_then`.
    pub open spec fn filled_from(
        &self,
        before: Chunk,
        others: Map<u128, Chunk>,
        sky_before: Map<u64, i32>,
        sky_then: Map<u64, i32>,
    ) -> bool {
        let end = filled(
            before.position,
            before.chunk_filling,
            before.modifications@,
            before.other_chunks_modifications@,
            before.other_chunks_natural_light_modifications@,
            others,
            sky_before,
        );
        &&& self.cubes@ == end.cubes
        &&& self.modifications@.len() == 0
        &&& self.other_chunks_modifications@ == end.queued
        &&& self.other_chunks_natural_light_modifications@ == end.lights
        &&& sky_then == end.sky
        &&& self.filled
        &&& self.position == before.position
        &&& self.mesh == before.mesh
        &&& self.natural_light_modifications == before.natural_light_modifications
        &&& self.drawn == before.drawn
        &&& self.update_count == before.update_count
        &&& self.chunk_filling == before.chunk_filling
    }

    /// Whether this chunk is what `update_mesh` makes of the chunk `before`,
    /// taking the sky heights from `sky_before` to `sky_then`.
    pub open spec fn updated_from(
        &self,
        before: Chunk,
        sky_before: Map<u64, i32>,
        sky_then: Map<u64, i32>,
    ) -> bool {
        let end = apply_edits(
            EditState {
                cubes: before.cubes@,
                queued: before.other_chunks_modifications@,
                heights: seen_rows(0),
            },
            before.position,
            before.modifications@,
        );
        let glow = apply_lights(
            Glow { cubes: end.cubes, abroad: before.other_chunks_natural_light_modifications@ },
            before.position,
            before.natural_light_modifications@,
        );
        &&& self.cubes@ == glow.cubes
        &&& self.modifications@.len() == 0
        &&& self.natural_light_modifications@.len() == 0
        &&& self.other_chunks_modifications@ == end.queued
        &&& self.other_chunks_natural_light_modifications@ == glow.abroad
        &&& sky_then == if before.modifications@.len() > 0 {
            sky_after(sky_before, before.position, end.heights, 1156)
        } else {
            sky_before
        }
        &&& mesh_of(self.cubes@, self.mesh)
        &&& self.drawn
        &&& self.update_count == if before.update_count < u32::MAX {
            (before.update_count + 1) as u32
        } else {
            before.update_count
        }
        &&& self.position == before.position
        &&& self.filled == before.filled
        &&& self.chunk_filling == before.chunk_filling
    }

    /// A chunk of air without light, with nothing pending, neither filled
    /// nor drawn.
    pub fn new(position: ChunkPosition) -> (chunk: Self)
        ensures
            chunk.wf(),
            chunk@ == fresh_chunk(position),
            chunk.position == position,
            forall|i: int|
                0 <= i < CHUNK_VOLUME ==> #[trigger] chunk.cubes@[i] == (Cube {
                    id: 0,
                    natural_light_level: 0,
                    items_light_level: 0,
                }),
            chunk.modifications@.len() == 0,
            chunk.other_chunks_modifications@.len() == 0,
            chunk.natural_light_modifications@.len() == 0,
            chunk.other_chunks_natural_light_modifications@.len() == 0,
            !chunk.filled,
            !chunk.drawn,
            chunk.update_count == 0,
            chunk.mesh.vertices@.len() == 0,
            chunk.chunk_filling.rows == 0,
    {
        let mut cubes: Vec<Cube> = Vec::new();
        let mut i: usize = 0;
        while i < CHUNK_VOLUME
            invariant
                i <= CHUNK_VOLUME,
                cubes@.len() == i,
                forall|j: int|
                    0 <= j < i ==> #[trigger] cubes@[j] == (Cube {
                        id: 0,
                        natural_light_level: 0,
                        items_light_level: 0,
                    }),
            decreases CHUNK_VOLUME - i,
        {
            cubes.push(Cube { id: 0, natural_light_level: 0, items_light_level: 0 });
            i += 1;
        }
        let chunk = Chunk {
            cubes,
            position,
            mesh: Mesh::new(),
            modifications: ModificationQueue::new(),
            natural_light_modifications: Vec::new(),
            other_chunks_modifications: ModificationQueue::new(),
            other_chunks_natural_light_modifications: Vec::new(),
            filled: false,
            drawn: false,
            update_count: 0,
            chunk_filling: ChunkFilling::new(),
        };
        proof {
            let fresh = fresh_chunk(position);
            assert(chunk.cubes@ =~= fresh.cubes);
            assert(chunk.natural_light_modifications@ =~= fresh.natural_light_modifications);
            assert(chunk.other_chunks_natural_light_modifications@
                =~= fresh.other_chunks_natural_light_modifications);
        }
        chunk
    }

    /// Brings the sky heights of the world up to date with the highest row
    /// seen in each column of this chunk, halo columns included. After it each
    /// of these columns has a height.
    #[verifier::rlimit(40)]
    pub fn apply_chunk_heights(&self, chunk_heights: &Vec<u32>, sky: &mut SkyHeights)
        requires
            self.position.in_world(),
            heights_valid(chunk_heights@),
        ensures
            final(sky)@ == sky_after(old(sky)@, self.position, chunk_heights@, 1156),
            forall|x: int, z: int|
                0 <= x < 34 && 0 <= z < 34 ==> final(sky)@.contains_key(
                    #[trigger] column_key(
                        world_axis(x, self.position.x as int),
                        world_axis(z, self.position.z as int),
                    ),
                ),
    {
        let mut x: u32 = 0;
        while x < CHUNK_SIZE
            invariant
                x <= CHUNK_SIZE,
                self.position.in_world(),
                heights_valid(chunk_heights@),
                sky@ == sky_after(old(sky)@, self.position, chunk_heights@, (x * 34) as nat),
            decreases CHUNK_SIZE - x,
        {
            let mut z: u32 = 0;
            while z < CHUNK_SIZE
                invariant
                    x < CHUNK_SIZE,
                    z <= CHUNK_SIZE,
                    self.position.in_world(),
                    heights_valid(chunk_heights@),
                    sky@ == sky_after(old(sky)@, self.position, chunk_heights@, (x * 34 + z) as nat),
                decreases CHUNK_SIZE - z,
            {
                let local = chunk_heights[(x + z * CHUNK_SIZE) as usize];
                proof {
                    let c = (x * 34 + z) as int;
                    assert(c / 34 == x && c % 34 == z);
                }
                raise_column(sky, self.position, x, z, local);
                z += 1;
            }
            x += 1;
        }
        proof {
            lemma_sky_after_covers(old(sky)@, self.position, chunk_heights@, 1156);
        }
    }

    /// Gives every cell the cube of the untouched world and plants the trees
    /// that stand in the cells, noting the highest row of each column.
    #[verifier::rlimit(40)]
    fn fill_terrain(&mut self, chunk_heights: &mut Vec<u32>)
        requires
            old(self).wf(),
            old(self).position.in_world(),
            old(self).chunk_filling.covers_chunk(old(self).position),
            old(chunk_heights)@ == seen_rows(0),
        ensures
            final(self).wf(),
            final(self).cubes@ == Seq::new(
                CHUNK_VOLUME as nat,
                |i: int| terrain_cube(old(self).chunk_filling, old(self).position, i),
            ),
            (Pending {
                own: final(self).modifications@,
                abroad: final(self).other_chunks_modifications@,
            }) == planted(
                Pending { own: old(self).modifications@, abroad: old(self).other_chunks_modifications@ },
                old(self).position,
                old(self).chunk_filling,
                CHUNK_VOLUME as nat,
            ),
            final(chunk_heights)@ == top_rows(),
            *final(self) == (Chunk {
                cubes: final(self).cubes,
                modifications: final(self).modifications,
                other_chunks_modifications: final(self).other_chunks_modifications,
                ..*old(self)
            }),
    {
        let mut filling = ChunkFilling::new();
        std::mem::swap(&mut self.chunk_filling, &mut filling);
        let ghost start = Pending {
            own: self.modifications@,
            abroad: self.other_chunks_modifications@,
        };
        let mut i: usize = 0;
        while i < CHUNK_VOLUME
            invariant
                i <= CHUNK_VOLUME,
                self.wf(),
                self.position.in_world(),
                filling == old(self).chunk_filling,
                filling.covers_chunk(self.position),
                start == (Pending {
                    own: old(self).modifications@,
                    abroad: old(self).other_chunks_modifications@,
                }),
                forall|j: int|
                    0 <= j < i ==> #[trigger] self.cubes@[j] == terrain_cube(filling, self.position, j),
                (Pending { own: self.modifications@, abroad: self.other_chunks_modifications@ })
                    == planted(start, self.position, filling, i as nat),
                chunk_heights@ == seen_rows(i as nat),
                *self == (Chunk {
                    cubes: self.cubes,
                    modifications: self.modifications,
                    other_chunks_modifications: self.other_chunks_modifications,
                    chunk_filling: self.chunk_filling,
                    ..*old(self)
                }),
            decreases CHUNK_VOLUME - i,
        {
            proof {
                lemma_seen_rows_valid(i as nat);
            }
            let cell = delinearize(i);
            let world_position = WorldPosition {
                x: to_world_position(cell[0], self.position.x),
                y: to_world_position(cell[1], self.position.y),
                z: to_world_position(cell[2], self.position.z),
            };
            assert(world_position == cell_world(self.position, i as int));
            let cube = filling.fill_block(world_position, self, true);
            let column = (cell[0] + cell[2] * CHUNK_SIZE) as usize;
            if cell[1] > chunk_heights[column] {
                chunk_heights.set(column, cell[1]);
            }
            self.cubes.set(i, cube);
            i += 1;
        }
        std::mem::swap(&mut self.chunk_filling, &mut filling);
        proof {
            lemma_seen_rows_full();
        }
        assert(self.cubes@ =~= Seq::new(
            CHUNK_VOLUME as nat,
            |i: int| terrain_cube(old(self).chunk_filling, old(self).position, i),
        ));
    }

    /// Fills the chunk: see `filled`. The chunk's samples must reach all of
    /// its cells, and up to the sky height of each of its columns.
    #[verifier::rlimit(40)]
    pub fn fill_chunk(&mut self, world: &mut World)
        requires
            old(self).wf(),
            old(self).position.in_world(),
            old(self).chunk_filling.covers_chunk(old(self).position),
            chunks_valid(old(world).chunks@),
            sky_within(
                old(world).natural_light_stopped_at@,
                old(self).position,
                old(self).chunk_filling.top(),
            ),
        ensures
            final(self).wf(),
            final(self).filled,
            final(self).modifications@.len() == 0,
            ({
                let end = filled(
                    old(self).position,
                    old(self).chunk_filling,
                    old(self).modifications@,
                    old(self).other_chunks_modifications@,
                    old(self).other_chunks_natural_light_modifications@,
                    old(world).chunks@,
                    old(world).natural_light_stopped_at@,
                );
                &&& final(self).cubes@ == end.cubes
                &&& final(self).other_chunks_modifications@ == end.queued
                &&& final(self).other_chunks_natural_light_modifications@ == end.lights
                &&& final(world).natural_light_stopped_at@ == end.sky
            }),
            *final(self) == (Chunk {
                cubes: final(self).cubes,
                modifications: final(self).modifications,
                other_chunks_modifications: final(self).other_chunks_modifications,
                other_chunks_natural_light_modifications: final(
                    self).other_chunks_natural_light_modifications,
                filled: true,
                ..*old(self)
            }),
            *final(world) == (World {
                natural_light_stopped_at: final(world).natural_light_stopped_at,
                ..*old(world)
            }),
            final(self).filled_from(
                *old(self),
                old(world).chunks@,
                old(world).natural_light_stopped_at@,
                final(world).natural_light_stopped_at@,
            ),
    {
        let mut chunk_heights = no_rows();
        self.fill_terrain(&mut chunk_heights);
        proof {
            lemma_seen_rows_valid(CHUNK_VOLUME as nat);
        }
        let ghost had_edits = self.modifications@.len() > 0;
        let ghost sky = world.natural_light_stopped_at@;
        self.apply_self_modifications(&mut chunk_heights, &mut world.natural_light_stopped_at);
        proof {
            if had_edits {
                lemma_sky_after_within(
                    sky,
                    self.position,
                    chunk_heights@,
                    1156,
                    self.chunk_filling.top(),
                );
            }
            lemma_sky_after_within(
                world.natural_light_stopped_at@,
                self.position,
                chunk_heights@,
                1156,
                self.chunk_filling.top(),
            );
        }
        if self.modifications.len() == 0 {
            self.apply_chunk_heights(&chunk_heights, &mut world.natural_light_stopped_at);
        }
        self.filled = true;
        recalculate_natural_light(self, world);
        recalculate_diffuse_light(self);
    }

    /// Takes every pending edit of this chunk from its queue, the newest
    /// first, and applies it: where the edit is forced or the cell holds air,
    /// the mirrors of the edit are queued for the neighbours, the cell takes
    /// the material, and the cell's row is seen by `chunk_heights`. If there
    /// was any edit, the sky heights are then brought up to date.
    #[verifier::rlimit(40)]
    pub fn apply_self_modifications(&mut self, chunk_heights: &mut Vec<u32>, sky: &mut SkyHeights)
        requires
            old(self).wf(),
            old(self).position.in_world(),
            heights_valid(old(chunk_heights)@),
        ensures
            final(self).wf(),
            heights_valid(final(chunk_heights)@),
            final(self).modifications@.len() == 0,
            ({
                let end = apply_edits(
                    EditState {
                        cubes: old(self).cubes@,
                        queued: old(self).other_chunks_modifications@,
                        heights: old(chunk_heights)@,
                    },
                    old(self).position,
                    old(self).modifications@,
                );
                &&& final(self).cubes@ == end.cubes
                &&& final(self).other_chunks_modifications@ == end.queued
                &&& final(chunk_heights)@ == end.heights
                &&& final(sky)@ == if old(self).modifications@.len() > 0 {
                    sky_after(old(sky)@, old(self).position, end.heights, 1156)
                } else {
                    old(sky)@
                }
            }),
            *final(self) == (Chunk {
                cubes: final(self).cubes,
                modifications: final(self).modifications,
                other_chunks_modifications: final(self).other_chunks_modifications,
                ..*old(self)
            }),
    {
        let len = self.modifications.len();
        if len > 0 {
            let ghost end = apply_edits(
                EditState {
                    cubes: self.cubes@,
                    queued: self.other_chunks_modifications@,
                    heights: chunk_heights@,
                },
                self.position,
                self.modifications@,
            );
            let mut done: usize = 0;
            while done < len
                invariant
                    done <= len,
                    self.wf(),
                    self.position.in_world(),
                    heights_valid(chunk_heights@),
                    self.modifications@.len() == len - done,
                    apply_edits(
                        EditState {
                            cubes: self.cubes@,
                            queued: self.other_chunks_modifications@,
                            heights: chunk_heights@,
                        },
                        self.position,
                        self.modifications@,
                    ) == end,
                    *self == (Chunk {
                        cubes: self.cubes,
                        modifications: self.modifications,
                        other_chunks_modifications: self.other_chunks_modifications,
                        ..*old(self)
                    }),
                decreases len - done,
            {
                let ghost before = self.modifications@;
                if let Some((_, modification)) = self.modifications.pop_back() {
                    assert(modification == before.last().1);
                    assert(modification_valid(modification));
                    let position = modification.position;
                    if modification.force || self.cubes[position].id == 0 {
                        self.modify_neighbours(self.position, &modification);
                        let cube = self.cubes[position];
                        self.cubes.set(
                            position,
                            Cube {
                                id: modification.id,
                                natural_light_level: cube.natural_light_level,
                                items_light_level: cube.items_light_level,
                            },
                        );
                        let cell = delinearize(position);
                        let column = (cell[0] + cell[2] * CHUNK_SIZE) as usize;
                        if cell[1] > chunk_heights[column] {
                            chunk_heights.set(column, cell[1]);
                        }
                    }
                }
                done += 1;
            }
            self.apply_chunk_heights(chunk_heights, sky);
        }
    }

    /// Meshes the chunk's grid as it stands.
    pub fn greedy_meshing(&mut self)
        requires
            old(self).wf(),
        ensures
            final(self).wf(),
            mesh_of(final(self).cubes@, final(self).mesh),
            *final(self) == (Chunk { mesh: final(self).mesh, ..*old(self) }),
    {
        self.mesh = greedy_mesh(&self.cubes);
    }

    /// Brings the chunk up to date and meshes it: applies its pending edits,
    /// then its pending raises of light, then makes the mesh. The chunk
    /// counts as drawn from then on, and the count of its updates goes up by
    /// one as long as it can.
    #[verifier::rlimit(40)]
    pub fn update_mesh(&mut self, sky: &mut SkyHeights)
        requires
            old(self).wf(),
            old(self).position.in_world(),
        ensures
            final(self).wf(),
            final(self).drawn,
            final(self).modifications@.len() == 0,
            final(self).natural_light_modifications@.len() == 0,
            final(self).update_count == if old(self).update_count < u32::MAX {
                (old(self).update_count + 1) as u32
            } else {
                old(self).update_count
            },
            ({
                let end = apply_edits(
                    EditState {
                        cubes: old(self).cubes@,
                        queued: old(self).other_chunks_modifications@,
                        heights: seen_rows(0),
                    },
                    old(self).position,
                    old(self).modifications@,
                );
                let glow = apply_lights(
                    Glow { cubes: end.cubes, abroad: old(self).other_chunks_natural_light_modifications@ },
                    old(self).position,
                    old(self).natural_light_modifications@,
                );
                &&& final(self).cubes@ == glow.cubes
                &&& final(self).other_chunks_modifications@ == end.queued
                &&& final(self).other_chunks_natural_light_modifications@ == glow.abroad
                &&& final(sky)@ == if old(self).modifications@.len() > 0 {
                    sky_after(old(sky)@, old(self).position, end.heights, 1156)
                } else {
                    old(sky)@
                }
            }),
            mesh_of(final(self).cubes@, final(self).mesh),
            final(self).position == old(self).position,
            final(self).filled == old(self).filled,
            final(self).chunk_filling == old(self).chunk_filling,
            final(self).updated_from(*old(self), old(sky)@, final(sky)@),
    {
        let mut chunk_heights = no_rows();
        self.apply_self_modifications(&mut chunk_heights, sky);
        self.apply_self_natural_light_modifications();
        self.greedy_meshing();
        self.drawn = true;
        if self.update_count < u32::MAX {
            self.update_count += 1;
        }
    }

    /// Hands out the mesh to be drawn, with the world position of the
    /// chunk's first interior voxel, and leaves the chunk without one: `None`
    /// if the mesh has no vertex.
    pub fn draw_mesh(&mut self) -> (drawn: Option<(Mesh, [i32; 3])>)
        requires
            old(self).position.in_world(),
        ensures
            match drawn {
                Some((mesh, origin)) => {
                    &&& old(self).mesh.vertices@.len() > 0
                    &&& mesh == old(self).mesh
                    &&& origin == chunk_origin(old(self).position)
                    &&& final(self).mesh@ == (MeshModel { groups: Seq::empty(), buffers: no_buffers() })
                },
                None => old(self).mesh.vertices@.len() == 0 && final(self).mesh == old(self).mesh,
            },
            *final(self) == (Chunk { mesh: final(self).mesh, ..*old(self) }),
    {
        if self.mesh.vertices.len() > 0 {
            let mut mesh = Mesh::new();
            std::mem::swap(&mut self.mesh, &mut mesh);
            Some((mesh, [32 * self.position.x, 32 * self.position.y, 32 * self.position.z]))
        } else {
            None
        }
    }

    /// Takes every pending raise of this chunk's light, the newest first, and
    /// spreads it from its cell.
    pub fn apply_self_natural_light_modifications(&mut self)
        requires
            old(self).wf(),
            has_neighbours(old(self).position),
        ensures
            final(self).wf(),
            final(self).natural_light_modifications@.len() == 0,
            (Glow {
                cubes: final(self).cubes@,
                abroad: final(self).other_chunks_natural_light_modifications@,
            }) == apply_lights(
                Glow {
                    cubes: old(self).cubes@,
                    abroad: old(self).other_chunks_natural_light_modifications@,
                },
                old(self).position,
                old(self).natural_light_modifications@,
            ),
            brightened(old(self).cubes@, final(self).cubes@),
            *final(self) == (Chunk {
                cubes: final(self).cubes,
                natural_light_modifications: final(self).natural_light_modifications,
                other_chunks_natural_light_modifications: final(
                    self).other_chunks_natural_light_modifications,
                ..*old(self)
            }),
    {
        proof {
            lemma_apply_lights_brightens(
                Glow { cubes: self.cubes@, abroad: self.other_chunks_natural_light_modifications@ },
                self.position,
                self.natural_light_modifications@,
            );
        }
        let len = self.natural_light_modifications.len();
        let ghost end = apply_lights(
            Glow { cubes: self.cubes@, abroad: self.other_chunks_natural_light_modifications@ },
            self.position,
            self.natural_light_modifications@,
        );
        let mut done: usize = 0;
        while done < len
            invariant
                done <= len,
                self.wf(),
                has_neighbours(self.position),
                self.natural_light_modifications@.len() == len - done,
                apply_lights(
                    Glow { cubes: self.cubes@, abroad: self.other_chunks_natural_light_modifications@ },
                    self.position,
                    self.natural_light_modifications@,
                ) == end,
                *self == (Chunk {
                    cubes: self.cubes,
                    natural_light_modifications: self.natural_light_modifications,
                    other_chunks_natural_light_modifications: self.other_chunks_natural_light_modifications,
                    ..*old(self)
                }),
            decreases len - done,
        {
            let ghost before = self.natural_light_modifications@;
            if let Some(modification) = self.natural_light_modifications.pop() {
                assert(modification == before.last());
                assert(self.natural_light_modifications@ == before.drop_last());
                let cell = delinearize(modification.position);
                diffuse_light_from_pos(self, cell[0], cell[1], cell[2], modification.light_level, true);
            }
            done += 1;
        }
    }

    /// Hands an edit of chunk `chunk_position` to this chunk. An edit of this
    /// chunk goes to its own queue; an edit of another chunk goes to the
    /// queue for other chunks, behind its mirrors, of which one that lies in
    /// this chunk's own halo goes to the own queue at once. A forced edit
    /// takes the place of a pending edit of the same cell; another edit gives
    /// way to it.
    #[verifier::rlimit(40)]
    pub fn add_modification_no_update(&mut self, modification: Modification, chunk_position: ChunkPosition)
        requires
            old(self).wf(),
            modification_valid(modification),
            has_neighbours(chunk_position),
        ensures
            final(self).wf(),
            chunk_position == old(self).position ==> final(self).modifications@ == queued(
                old(self).modifications@,
                edit_key(modification.position, chunk_position),
                modification,
            ) && *final(self) == (Chunk { modifications: final(self).modifications, ..*old(self) }),
            chunk_position != old(self).position ==> (Pending {
                own: final(self).modifications@,
                abroad: final(self).other_chunks_modifications@,
            }) == queued_abroad(
                Pending {
                    own: old(self).modifications@,
                    abroad: old(self).other_chunks_modifications@,
                },
                old(self).position,
                chunk_position,
                modification,
            ) && *final(self) == (Chunk {
                modifications: final(self).modifications,
                other_chunks_modifications: final(self).other_chunks_modifications,
                ..*old(self)
            }),
    {
        if chunk_position == self.position {
            let exist = self.modifications.contains_key(modification.position, chunk_position);
            if !exist || modification.force {
                proof {
                    lemma_written_valid(
                        self.modifications@,
                        edit_key(modification.position, chunk_position),
                        modification,
                    );
                    lemma_written_own(
                        self.modifications@,
                        edit_key(modification.position, chunk_position),
                        modification,
                        self.position,
                    );
                }
                self.modifications.insert(chunk_position, modification);
            }
        } else {
            let exist = self.other_chunks_modifications.contains_key(
                modification.position,
                chunk_position,
            );
            if !exist || modification.force {
                self.modify_neighbours(chunk_position, &modification);
                proof {
                    lemma_written_valid(
                        self.other_chunks_modifications@,
                        edit_key(modification.position, chunk_position),
                        modification,
                    );
                }
                self.other_chunks_modifications.insert(chunk_position, modification);
            }
        }
    }

    /// Hands in the mirror of an edit along one axis, if it has one.
    fn queue_mirror(
        &mut self,
        chunk_position: ChunkPosition,
        modification: &Modification,
        cell: [u32; 3],
        axis: usize,
    )
        requires
            old(self).wf(),
            modification_valid(*modification),
            has_neighbours(chunk_position),
            axis < 3,
            cell[0] == cell_x(modification.position as int),
            cell[1] == cell_y(modification.position as int),
            cell[2] == cell_z(modification.position as int),
        ensures
            final(self).wf(),
            (Pending {
                own: final(self).modifications@,
                abroad: final(self).other_chunks_modifications@,
            }) == mirror_handed(
                Pending {
                    own: old(self).modifications@,
                    abroad: old(self).other_chunks_modifications@,
                },
                old(self).position,
                chunk_position,
                *modification,
                axis as int,
            ),
            chunk_position == old(self).position ==> final(self).modifications == old(
                self,
            ).modifications,
            *final(self) == (Chunk {
                modifications: final(self).modifications,
                other_chunks_modifications: final(self).other_chunks_modifications,
                ..*old(self)
            }),
    {
        proof {
            lemma_mirrored_valid(chunk_position, *modification, axis as int);
        }
        let c = cell[axis];
        if c == 1 || c == REAL_CHUNK_SIZE {
            let by: i32 = if c == 1 { -1 } else { 1 };
            let to: u32 = if c == 1 { REAL_CHUNK_SIZE + 1 } else { 0 };
            let other_chunk_position = ChunkPosition {
                x: if axis == 0 { chunk_position.x + by } else { chunk_position.x },
                y: if axis == 1 { chunk_position.y + by } else { chunk_position.y },
                z: if axis == 2 { chunk_position.z + by } else { chunk_position.z },
            };
            let mirror = Modification {
                position: linearize(
                    if axis == 0 { to } else { cell[0] },
                    if axis == 1 { to } else { cell[1] },
                    if axis == 2 { to } else { cell[2] },
                ),
                id: modification.id,
                force: modification.force,
            };
            proof {
                lemma_written_valid(
                    self.modifications@,
                    edit_key(mirror.position, other_chunk_position),
                    mirror,
                );
                lemma_written_valid(
                    self.other_chunks_modifications@,
                    edit_key(mirror.position, other_chunk_position),
                    mirror,
                );
            }
            if other_chunk_position == self.position {
                let exist = self.modifications.contains_key(mirror.position, other_chunk_position);
                if !exist || mirror.force {
                    proof {
                        lemma_written_own(
                            self.modifications@,
                            edit_key(mirror.position, other_chunk_position),
                            mirror,
                            self.position,
                        );
                    }
                    self.modifications.insert(other_chunk_position, mirror);
                }
            } else {
                self.other_chunks_modifications.insert(other_chunk_position, mirror);
            }
        }
    }

    /// Hands in the mirrors of an edit of chunk `chunk_position`: one for
    /// each axis along which the edited cell lies next to the halo. A mirror
    /// that lies in this chunk's own halo goes to its own queue, any other to
    /// the queue for other chunks; the mirrors of an edit of this chunk
    /// itself all go there.
    pub fn modify_neighbours(&mut self, chunk_position: ChunkPosition, modification: &Modification)
        requires
            old(self).wf(),
            modification_valid(*modification),
            has_neighbours(chunk_position),
        ensures
            final(self).wf(),
            (Pending {
                own: final(self).modifications@,
                abroad: final(self).other_chunks_modifications@,
            }) == mirrors_handed(
                Pending {
                    own: old(self).modifications@,
                    abroad: old(self).other_chunks_modifications@,
                },
                old(self).position,
                chunk_position,
                *modification,
            ),
            chunk_position == old(self).position ==> final(self).modifications == old(
                self,
            ).modifications && final(self).other_chunks_modifications@ == with_mirrors(
                old(self).other_chunks_modifications@,
                chunk_position,
                *modification,
            ),
            *final(self) == (Chunk {
                modifications: final(self).modifications,
                other_chunks_modifications: final(self).other_chunks_modifications,
                ..*old(self)
            }),
    {
        let cell = delinearize(modification.position);
        proof {
            lemma_own_mirrors_go_abroad(
                Pending { own: self.modifications@, abroad: self.other_chunks_modifications@ },
                chunk_position,
                *modification,
            );
        }
        self.queue_mirror(chunk_position, modification, cell, 0);
        self.queue_mirror(chunk_position, modification, cell, 1);
        self.queue_mirror(chunk_position, modification, cell, 2);
    }
}

} // verus!
