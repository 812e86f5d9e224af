//! The world: every chunk there is, and the chunks that wait to be meshed
//! again or drawn.

use crate::chunk::Chunk;
use crate::chunk::chunk_origin;
use crate::chunk::ChunkView;
use crate::chunk::Cube;
use crate::chunk::fresh_chunk;
use crate::chunk::lemma_written_own;
use crate::chunk::lemma_written_valid;
use crate::chunk::modification_valid;
use crate::chunk_filling::ChunkFilling;
use crate::lighting::NaturalLightModification;
use crate::meshing::Mesh;
use crate::meshing::MeshModel;
use crate::meshing::no_buffers;
use crate::positions::ChunkPosition;
use crate::positions::MAX_CHUNK_COORDINATE;
use crate::queue::edit_key;
use crate::queue::entry_position;
use crate::queue::key_chunk;
use crate::queue::lemma_without_position;
use crate::queue::lemma_without_position_distinct;
use crate::queue::position_entry;
use crate::queue::PositionQueue;
use crate::queue::without_position;
use crate::queue::written;
use crate::shape::CHUNK_VOLUME;
use crate::sky::lemma_sky_within_grows;
use crate::sky::sky_within;
use crate::sky::SkyHeights;
use crate::structures::Modification;
use std::collections::HashMap;
use vstd::prelude::*;

verus! {

/// The key of the chunk at `position`: its coordinates moved to be
/// non-negative, x highest, z lowest.
pub open spec fn chunk_key(position: ChunkPosition) -> u128 {
    (((position.x + 2147483648) * 4294967296 + (position.y + 2147483648)) * 4294967296 + (position.z
        + 2147483648)) as u128
}

/// Different chunks have different keys.
pub proof fn lemma_chunk_key_injective(a: ChunkPosition, b: ChunkPosition)
    requires
        chunk_key(a) == chunk_key(b),
    ensures
        a == b,
{
}

/// Different chunks have different keys, whichever they are.
pub proof fn lemma_chunk_key_injective_all()
    ensures
        forall|a: ChunkPosition, b: ChunkPosition| #[trigger] chunk_key(a) == #[trigger] chunk_key(b) ==> a == b,
{
    assert forall|a: ChunkPosition, b: ChunkPosition| #[trigger] chunk_key(a) == #[trigger] chunk_key(b) implies a == b by {
        lemma_chunk_key_injective(a, b);
    }
}

/// The key of a chunk.
pub fn key_of_chunk(position: ChunkPosition) -> (key: u128)
    ensures
        key == chunk_key(position),
{
    let x: u128 = (position.x as i64 + 2147483648) as u128;
    let y: u128 = (position.y as i64 + 2147483648) as u128;
    let z: u128 = (position.z as i64 + 2147483648) as u128;
    (x * 4294967296 + y) * 4294967296 + z
}

/// The world.
pub struct World {
    /// Every chunk there is, each under the key of its position.
    pub chunks: HashMap<u128, Chunk>,
    /// Chunks whose mesh waits to be drawn.
    pub chunks_to_draw: PositionQueue,
    /// Chunks that wait to be meshed again.
    pub chunks_to_update: PositionQueue,
    /// Chunks handed out for generation and not yet done.
    pub nb_chunks_generating: usize,
    /// For each column, the height from which sky light is cast down.
    pub natural_light_stopped_at: SkyHeights,
}

/// Whether each chunk of a registry is well formed and stands under its own
/// key.
pub open spec fn chunks_valid(chunks: Map<u128, Chunk>) -> bool {
    forall|key: u128| #[trigger]
        chunks.contains_key(key) ==> chunks[key].wf() && chunk_key(chunks[key].position) == key
}

/// Whether a queue names no chunk twice, and each chunk that it names lies
/// in the world and is in a registry.
pub open spec fn all_known(entries: Seq<(i32, i32, i32)>, chunks: Map<u128, Chunk>) -> bool {
    &&& entries.no_duplicates()
    &&& forall|i: int|
        0 <= i < entries.len() ==> entry_position(#[trigger] entries[i]).in_world()
            && chunks.contains_key(chunk_key(entry_position(entries[i])))
}

/// The chunks of a registry with their queues as sequences.
pub open spec fn views(chunks: Map<u128, Chunk>) -> Map<u128, ChunkView> {
    chunks.map_values(|chunk: Chunk| chunk@)
}

/// A chunk that enters or returns to a registry is seen there as it is.
pub proof fn lemma_views_insert(chunks: Map<u128, Chunk>, key: u128, chunk: Chunk)
    ensures
        views(chunks.insert(key, chunk)) == views(chunks).insert(key, chunk@),
{
    assert(views(chunks.insert(key, chunk)) =~= views(chunks).insert(key, chunk@));
}

/// A chunk that leaves a registry is no longer seen there.
pub proof fn lemma_views_remove(chunks: Map<u128, Chunk>, key: u128)
    ensures
        views(chunks.remove(key)) == views(chunks).remove(key),
{
    assert(views(chunks.remove(key)) =~= views(chunks).remove(key));
}

/// What the handing over of a chunk's queues for other chunks works on: the
/// other chunks, the parts of the chunk itself that can be a target, and the
/// queue of chunks to mesh again.
pub struct Delivery {
    pub chunks: Map<u128, ChunkView>,
    pub position: ChunkPosition,
    pub drawn: bool,
    pub cubes: Seq<Cube>,
    pub modifications: Seq<((usize, i32, i32, i32), Modification)>,
    pub lights: Seq<NaturalLightModification>,
    pub to_update: Seq<(i32, i32, i32)>,
}

/// The queue of chunks to mesh again after a chunk received something: if it
/// was drawn and does not wait yet, it waits at the end.
pub open spec fn requested(queue: Seq<(i32, i32, i32)>, chunk: ChunkPosition, drawn: bool) -> Seq<
    (i32, i32, i32),
> {
    if drawn && !queue.contains(position_entry(chunk)) {
        queue.push(position_entry(chunk))
    } else {
        queue
    }
}

/// The chunk at `position` as a registry has it, or as it is first made if
/// the registry does not have it.
pub open spec fn chunk_or_fresh(chunks: Map<u128, ChunkView>, position: ChunkPosition) -> ChunkView {
    if chunks.contains_key(chunk_key(position)) {
        chunks[chunk_key(position)]
    } else {
        fresh_chunk(position)
    }
}

/// The state after an edit was handed to the chunk at `target`, which is made
/// if it is not there: the edit is written to the chunk's own queue, and the
/// chunk is asked to be meshed again if it was drawn.
pub open spec fn edit_delivered(state: Delivery, target: ChunkPosition, modification: Modification) -> Delivery {
    if target == state.position {
        Delivery {
            modifications: written(
                state.modifications,
                edit_key(modification.position, target),
                modification,
            ),
            to_update: requested(state.to_update, target, state.drawn),
            ..state
        }
    } else {
        let base = chunk_or_fresh(state.chunks, target);
        Delivery {
            chunks: state.chunks.insert(
                chunk_key(target),
                ChunkView {
                    modifications: written(
                        base.modifications,
                        edit_key(modification.position, target),
                        modification,
                    ),
                    ..base
                },
            ),
            to_update: requested(state.to_update, target, base.drawn),
            ..state
        }
    }
}

/// The state after a raise of light was handed to the chunk at `target`,
/// which is made if it is not there: if the cell is darker than the raise, it
/// is queued with the chunk, and the chunk is asked to be meshed again if
/// it was drawn.
pub open spec fn light_delivered(state: Delivery, target: ChunkPosition, light: NaturalLightModification) -> Delivery {
    if target == state.position {
        if state.cubes[light.position as int].natural_light_level < light.light_level {
            Delivery {
                lights: state.lights.push(light),
                to_update: requested(state.to_update, target, state.drawn),
                ..state
            }
        } else {
            state
        }
    } else {
        let base = chunk_or_fresh(state.chunks, target);
        if base.cubes[light.position as int].natural_light_level < light.light_level {
            Delivery {
                chunks: state.chunks.insert(
                    chunk_key(target),
                    ChunkView {
                        natural_light_modifications: base.natural_light_modifications.push(light),
                        ..base
                    },
                ),
                to_update: requested(state.to_update, target, base.drawn),
                ..state
            }
        } else {
            Delivery { chunks: state.chunks.insert(chunk_key(target), base), ..state }
        }
    }
}

/// The state after every edit of a queue was handed over, the newest first.
pub open spec fn edits_delivered(state: Delivery, entries: Seq<((usize, i32, i32, i32), Modification)>) -> Delivery
    decreases entries.len(),
{
    if entries.len() == 0 {
        state
    } else {
        edits_delivered(
            edit_delivered(state, key_chunk(entries.last().0), entries.last().1),
            entries.drop_last(),
        )
    }
}

/// The state after every raise of light of a queue was handed over, the
/// newest first.
pub open spec fn lights_delivered(state: Delivery, lights: Seq<(NaturalLightModification, ChunkPosition)>) -> Delivery
    decreases lights.len(),
{
    if lights.len() == 0 {
        state
    } else {
        lights_delivered(
            light_delivered(state, lights.last().1, lights.last().0),
            lights.drop_last(),
        )
    }
}

/// Whether a raise of light names a cell of the grid.
pub open spec fn light_valid(light: NaturalLightModification) -> bool {
    light.position < CHUNK_VOLUME
}

/// Whether a queue names no chunk twice, and each chunk that it names lies
/// in the world and is in a registry, or is the chunk at `away`.
pub open spec fn all_known_but(entries: Seq<(i32, i32, i32)>, chunks: Map<u128, Chunk>, away: ChunkPosition) -> bool {
    &&& entries.no_duplicates()
    &&& forall|i: int|
        0 <= i < entries.len() ==> entry_position(#[trigger] entries[i]).in_world() && (
        chunks.contains_key(chunk_key(entry_position(entries[i]))) || entry_position(entries[i]) == away)
}

/// Number of chunks around a viewpoint that are kept generated.
pub const AREA_CHUNKS: usize = 1734;

/// The `n`th chunk of the area around the chunk at `center`: layer by layer
/// from one above the centre down to four below it, within a layer x by x
/// from eight before the centre to eight after it, within each x z by z
/// likewise.
pub open spec fn area_position(center: ChunkPosition, n: int) -> ChunkPosition {
    ChunkPosition {
        x: (center.x + (n / 17) % 17 - 8) as i32,
        y: (center.y + 1 - n / 289) as i32,
        z: (center.z + n % 17 - 8) as i32,
    }
}

/// Whether the whole area around the chunk at `center` lies in the world.
pub open spec fn area_in_world(center: ChunkPosition) -> bool {
    &&& -MAX_CHUNK_COORDINATE + 8 <= center.x <= MAX_CHUNK_COORDINATE - 8
    &&& -MAX_CHUNK_COORDINATE + 4 <= center.y <= MAX_CHUNK_COORDINATE - 1
    &&& -MAX_CHUNK_COORDINATE + 8 <= center.z <= MAX_CHUNK_COORDINATE - 8
}

/// Decides `area_in_world`.
pub fn is_area_in_world(center: ChunkPosition) -> (b: bool)
    ensures
        b == area_in_world(center),
{
    -MAX_CHUNK_COORDINATE + 8 <= center.x && center.x <= MAX_CHUNK_COORDINATE - 8 && -MAX_CHUNK_COORDINATE
        + 4 <= center.y && center.y <= MAX_CHUNK_COORDINATE - 1 && -MAX_CHUNK_COORDINATE + 8 <= center.z
        && center.z <= MAX_CHUNK_COORDINATE - 8
}

/// What scheduling works on: the chunks, the chunks to generate, and how
/// many chunks are being generated.
pub struct Schedule {
    pub chunks: Map<u128, ChunkView>,
    pub jobs: Seq<ChunkPosition>,
    pub generating: usize,
}

/// The schedule after the chunk at `position` was looked at: it is made if
/// it is not there, and unless it was drawn already it is to be generated.
pub open spec fn scheduled_one(state: Schedule, position: ChunkPosition) -> Schedule {
    let base = chunk_or_fresh(state.chunks, position);
    Schedule {
        chunks: state.chunks.insert(chunk_key(position), base),
        jobs: if base.drawn {
            state.jobs
        } else {
            state.jobs.push(position)
        },
        generating: if base.drawn || state.generating == usize::MAX {
            state.generating
        } else {
            (state.generating + 1) as usize
        },
    }
}

/// The schedule after the first `n` chunks of the area around `center` were
/// looked at.
pub open spec fn scheduled(state: Schedule, center: ChunkPosition, n: nat) -> Schedule
    decreases n,
{
    if n == 0 {
        state
    } else {
        scheduled_one(scheduled(state, center, (n - 1) as nat), area_position(center, n - 1))
    }
}

/// What drawing works on: the chunks, and the meshes handed out, each with
/// the world position of its chunk's first interior voxel.
pub struct Drawing {
    pub chunks: Map<u128, ChunkView>,
    pub meshes: Seq<(MeshModel, [i32; 3])>,
}

/// The state after the chunk at `position` was drawn: if its mesh has a
/// vertex, the mesh is handed out and the chunk left without one.
pub open spec fn drawn_one(state: Drawing, position: ChunkPosition) -> Drawing {
    let chunk = state.chunks[chunk_key(position)];
    if chunk.mesh.buffers.vertices.len() > 0 {
        Drawing {
            chunks: state.chunks.insert(
                chunk_key(position),
                ChunkView { mesh: MeshModel { groups: Seq::empty(), buffers: no_buffers() }, ..chunk },
            ),
            meshes: state.meshes.push((chunk.mesh, chunk_origin(position))),
        }
    } else {
        state
    }
}

/// The state after the first `n` of the chunks `entries` were drawn.
pub open spec fn drawn_out(state: Drawing, entries: Seq<(i32, i32, i32)>, n: nat) -> Drawing
    decreases n,
{
    if n == 0 {
        state
    } else {
        drawn_one(drawn_out(state, entries, (n - 1) as nat), entry_position(entries[n - 1]))
    }
}

/// Meshes that were handed out, as what they hold.
pub open spec fn mesh_models(meshes: Seq<(Mesh, [i32; 3])>) -> Seq<(MeshModel, [i32; 3])> {
    meshes.map_values(|m: (Mesh, [i32; 3])| (m.0@, m.1))
}

impl Chunk {
    /// Hands over what this chunk holds for other chunks: first each edit,
    /// the newest first, then each raise of light, the newest first. A chunk
    /// that something is for and that is not there is made. The chunk itself
    /// is taken out of the world for the time being, and can be a target too.
    #[verifier::rlimit(40)]
    pub fn modify_other_chunks(&mut self, world: &mut World)
        requires
            old(self).wf(),
            old(world).wf_with(old(self).position),
        ensures
            final(self).wf(),
            final(world).wf_with(final(self).position),
            final(world).delivery(*final(self)) == lights_delivered(
                edits_delivered(
                    old(world).delivery(*old(self)),
                    old(self).other_chunks_modifications@,
                ),
                old(self).other_chunks_natural_light_modifications@,
            ),
            final(self).other_chunks_modifications@.len() == 0,
            final(self).other_chunks_natural_light_modifications@.len() == 0,
            *final(self) == (Chunk {
                modifications: final(self).modifications,
                natural_light_modifications: final(self).natural_light_modifications,
                other_chunks_modifications: final(self).other_chunks_modifications,
                other_chunks_natural_light_modifications: final(
                    self).other_chunks_natural_light_modifications,
                ..*old(self)
            }),
            *final(world) == (World {
                chunks: final(world).chunks,
                chunks_to_update: final(world).chunks_to_update,
                ..*old(world)
            }),
    {
        let ghost end = edits_delivered(
            world.delivery(*self),
            self.other_chunks_modifications@,
        );
        while self.other_chunks_modifications.len() > 0
            invariant
                self.wf(),
                world.wf_with(self.position),
                edits_delivered(world.delivery(*self), self.other_chunks_modifications@) == end,
                *self == (Chunk {
                    modifications: self.modifications,
                    other_chunks_modifications: self.other_chunks_modifications,
                    ..*old(self)
                }),
                *world == (World {
                    chunks: world.chunks,
                    chunks_to_update: world.chunks_to_update,
                    ..*old(world)
                }),
            decreases self.other_chunks_modifications@.len(),
        {
            let ghost before = self.other_chunks_modifications@;
            if let Some((chunk_position, modification)) = self.other_chunks_modifications.pop_back() {
                assert(modification == before.last().1);
                assert(modification_valid(modification));
                world.deliver_edit(self, chunk_position, modification);
            }
        }
        let ghost done = lights_delivered(
            world.delivery(*self),
            self.other_chunks_natural_light_modifications@,
        );
        while self.other_chunks_natural_light_modifications.len() > 0
            invariant
                self.wf(),
                world.wf_with(self.position),
                self.other_chunks_modifications@.len() == 0,
                lights_delivered(
                    world.delivery(*self),
                    self.other_chunks_natural_light_modifications@,
                ) == done,
                *self == (Chunk {
                    modifications: self.modifications,
                    natural_light_modifications: self.natural_light_modifications,
                    other_chunks_modifications: self.other_chunks_modifications,
                    other_chunks_natural_light_modifications: self.other_chunks_natural_light_modifications,
                    ..*old(self)
                }),
                *world == (World {
                    chunks: world.chunks,
                    chunks_to_update: world.chunks_to_update,
                    ..*old(world)
                }),
            decreases self.other_chunks_natural_light_modifications@.len(),
        {
            let ghost before = self.other_chunks_natural_light_modifications@;
            if let Some((modification, chunk_position)) = self.other_chunks_natural_light_modifications.pop() {
                assert((modification, chunk_position) == before.last());
                assert(self.other_chunks_natural_light_modifications@ == before.drop_last());
                world.deliver_light(self, chunk_position, modification);
            }
        }
    }
}

impl World {
    /// Whether the world is well formed but for the chunk at `away`, which is
    /// taken out of it for the time being.
    pub open spec fn wf_with(&self, away: ChunkPosition) -> bool {
        &&& chunks_valid(self.chunks@)
        &&& !self.chunks@.contains_key(chunk_key(away))
        &&& all_known_but(self.chunks_to_draw@, self.chunks@, away)
        &&& all_known_but(self.chunks_to_update@, self.chunks@, away)
    }

    /// The state that the handing over of the queues of `own` starts from.
    pub open spec fn delivery(&self, own: Chunk) -> Delivery {
        Delivery {
            chunks: views(self.chunks@),
            position: own.position,
            drawn: own.drawn,
            cubes: own.cubes@,
            modifications: own.modifications@,
            lights: own.natural_light_modifications@,
            to_update: self.chunks_to_update@,
        }
    }

    /// Asks for a chunk that received something to be meshed again, if it was
    /// drawn.
    fn request_update(&mut self, target: ChunkPosition, drawn: bool, Ghost(away): Ghost<ChunkPosition>)
        requires
            old(self).wf_with(away),
            old(self).chunks@.contains_key(chunk_key(target)) || target == away,
            drawn ==> target.in_world(),
        ensures
            final(self).wf_with(away),
            final(self).chunks_to_update@ == requested(old(self).chunks_to_update@, target, drawn),
            *final(self) == (World { chunks_to_update: final(self).chunks_to_update, ..*old(self) }),
    {
        if drawn {
            self.chunks_to_update.insert_if_absent(target);
        }
    }

    /// Takes the chunk at `target` out of the registry, or makes it.
    #[verifier::rlimit(40)]
    fn take_or_make(&mut self, target: ChunkPosition, Ghost(away): Ghost<ChunkPosition>) -> (chunk: Chunk)
        requires
            old(self).wf_with(away),
            target != away,
        ensures
            chunk.wf(),
            chunk.position == target,
            chunk@ == chunk_or_fresh(views(old(self).chunks@), target),
            final(self).chunks@ == old(self).chunks@.remove(chunk_key(target)),
            *final(self) == (World { chunks: final(self).chunks, ..*old(self) }),
    {
        broadcast use vstd::std_specs::hash::group_hash_axioms;
        let key = key_of_chunk(target);
        match self.chunks.remove(&key) {
            Some(chunk) => {
                proof {
                    assert(old(self).chunks@.contains_key(key));
                    assert(chunk == old(self).chunks@[key]);
                    assert(chunk.wf() && chunk_key(chunk.position) == key);
                    lemma_chunk_key_injective(chunk.position, target);
                }
                chunk
            },
            None => Chunk::new(target),
        }
    }

    /// Hands an edit to the chunk at `target`, which is made if it is not
    /// there. `own` is the chunk whose queue the edit comes from, taken out
    /// of the registry for the time being; it can be the target itself.
    #[verifier::rlimit(40)]
    pub fn deliver_edit(&mut self, own: &mut Chunk, target: ChunkPosition, modification: Modification)
        requires
            old(own).wf(),
            old(self).wf_with(old(own).position),
            modification_valid(modification),
        ensures
            final(own).wf(),
            final(self).wf_with(final(own).position),
            final(self).delivery(*final(own)) == edit_delivered(
                old(self).delivery(*old(own)),
                target,
                modification,
            ),
            *final(own) == (Chunk { modifications: final(own).modifications, ..*old(own) }),
            *final(self) == (World {
                chunks: final(self).chunks,
                chunks_to_update: final(self).chunks_to_update,
                ..*old(self)
            }),
    {
        broadcast use vstd::std_specs::hash::group_hash_axioms;
        if target == own.position {
            proof {
                lemma_written_valid(
                    own.modifications@,
                    edit_key(modification.position, target),
                    modification,
                );
                lemma_written_own(
                    own.modifications@,
                    edit_key(modification.position, target),
                    modification,
                    target,
                );
            }
            own.modifications.insert(target, modification);
            self.request_update(target, own.drawn, Ghost(own.position));
        } else {
            let ghost before = self.chunks@;
            let mut chunk = self.take_or_make(target, Ghost(own.position));
            proof {
                lemma_written_valid(
                    chunk.modifications@,
                    edit_key(modification.position, target),
                    modification,
                );
                lemma_written_own(
                    chunk.modifications@,
                    edit_key(modification.position, target),
                    modification,
                    target,
                );
            }
            chunk.modifications.insert(target, modification);
            let drawn = chunk.drawn;
            let key = key_of_chunk(target);
            proof {
                lemma_views_insert(self.chunks@, key, chunk);
                lemma_views_remove(before, key);
                lemma_chunk_key_injective_all();
                assert(views(before).remove(key).insert(key, chunk@) =~= views(before).insert(
                    key,
                    chunk@,
                ));
            }
            self.chunks.insert(key, chunk);
            self.request_update(target, drawn, Ghost(own.position));
        }
    }

    /// Hands a raise of light to the chunk at `target`, which is made if it
    /// is not there. `own` is the chunk whose queue the raise comes from,
    /// taken out of the registry for the time being; it can be the target
    /// itself.
    #[verifier::rlimit(40)]
    pub fn deliver_light(
        &mut self,
        own: &mut Chunk,
        target: ChunkPosition,
        light: NaturalLightModification,
    )
        requires
            old(own).wf(),
            old(self).wf_with(old(own).position),
            light_valid(light),
        ensures
            final(own).wf(),
            final(self).wf_with(final(own).position),
            final(self).delivery(*final(own)) == light_delivered(
                old(self).delivery(*old(own)),
                target,
                light,
            ),
            *final(own) == (Chunk {
                natural_light_modifications: final(own).natural_light_modifications,
                ..*old(own)
            }),
            *final(self) == (World {
                chunks: final(self).chunks,
                chunks_to_update: final(self).chunks_to_update,
                ..*old(self)
            }),
    {
        broadcast use vstd::std_specs::hash::group_hash_axioms;
        if target == own.position {
            if own.cubes[light.position].natural_light_level < light.light_level {
                own.natural_light_modifications.push(light);
                self.request_update(target, own.drawn, Ghost(own.position));
            }
        } else {
            let ghost before = self.chunks@;
            let mut chunk = self.take_or_make(target, Ghost(own.position));
            let raised = chunk.cubes[light.position].natural_light_level < light.light_level;
            if raised {
                chunk.natural_light_modifications.push(light);
            }
            let drawn = chunk.drawn;
            let key = key_of_chunk(target);
            proof {
                lemma_views_insert(self.chunks@, key, chunk);
                lemma_views_remove(before, key);
                lemma_chunk_key_injective_all();
                assert(views(before).remove(key).insert(key, chunk@) =~= views(before).insert(
                    key,
                    chunk@,
                ));
            }
            self.chunks.insert(key, chunk);
            if raised {
                self.request_update(target, drawn, Ghost(own.position));
            }
        }
    }

    /// Whether the world is well formed: each chunk is, stands under its own
    /// key, and every chunk that waits is there and waits once.
    pub open spec fn wf(&self) -> bool {
        &&& chunks_valid(self.chunks@)
        &&& all_known(self.chunks_to_draw@, self.chunks@)
        &&& all_known(self.chunks_to_update@, self.chunks@)
    }

    /// Takes a chunk out of the registry.
    fn take(&mut self, position: ChunkPosition) -> (chunk: Chunk)
        requires
            old(self).wf(),
            old(self).chunks@.contains_key(chunk_key(position)),
        ensures
            final(self).wf_with(position),
            chunk.wf(),
            chunk.position == position,
            chunk == old(self).chunks@[chunk_key(position)],
            final(self).chunks@ == old(self).chunks@.remove(chunk_key(position)),
            *final(self) == (World { chunks: final(self).chunks, ..*old(self) }),
    {
        broadcast use vstd::std_specs::hash::group_hash_axioms;
        let key = key_of_chunk(position);
        proof {
            lemma_chunk_key_injective_all();
        }
        match self.chunks.remove(&key) {
            Some(chunk) => chunk,
            None => Chunk::new(position),
        }
    }

    /// Puts back a chunk that was taken out of the registry.
    fn put(&mut self, chunk: Chunk)
        requires
            old(self).wf_with(chunk.position),
            chunk.wf(),
        ensures
            final(self).wf(),
            final(self).chunks@ == old(self).chunks@.insert(chunk_key(chunk.position), chunk),
            *final(self) == (World { chunks: final(self).chunks, ..*old(self) }),
    {
        broadcast use vstd::std_specs::hash::group_hash_axioms;
        let key = key_of_chunk(chunk.position);
        self.chunks.insert(key, chunk);
    }

    /// Makes the chunk at `position`, unless it is there.
    pub fn create_chunk(&mut self, position: ChunkPosition)
        requires
            old(self).wf(),
        ensures
            final(self).wf(),
            final(self).chunks@.dom() == old(self).chunks@.dom().insert(chunk_key(position)),
            views(final(self).chunks@) == views(old(self).chunks@).insert(
                chunk_key(position),
                chunk_or_fresh(views(old(self).chunks@), position),
            ),
            old(self).chunks@.contains_key(chunk_key(position)) ==> final(self).chunks@ == old(
                self,
            ).chunks@,
            *final(self) == (World { chunks: final(self).chunks, ..*old(self) }),
    {
        broadcast use vstd::std_specs::hash::group_hash_axioms;
        let key = key_of_chunk(position);
        if !self.chunks.contains_key(&key) {
            let chunk = Chunk::new(position);
            proof {
                lemma_views_insert(self.chunks@, key, chunk);
            }
            self.chunks.insert(key, chunk);
        } else {
            proof {
                assert(views(self.chunks@) =~= views(self.chunks@).insert(
                    key,
                    views(self.chunks@)[key],
                ));
            }
        }
    }

    /// Whether the chunk at `position` is there.
    pub fn has_chunk(&self, position: ChunkPosition) -> (found: bool)
        ensures
            found == self.chunks@.contains_key(chunk_key(position)),
    {
        broadcast use vstd::std_specs::hash::group_hash_axioms;
        let key = key_of_chunk(position);
        self.chunks.contains_key(&key)
    }

    /// The chunk at `position`, if it is there.
    pub fn chunk(&self, position: ChunkPosition) -> (found: Option<&Chunk>)
        ensures
            match found {
                Some(chunk) => self.chunks@.contains_key(chunk_key(position)) && *chunk
                    == self.chunks@[chunk_key(position)],
                None => !self.chunks@.contains_key(chunk_key(position)),
            },
    {
        broadcast use vstd::std_specs::hash::group_hash_axioms;
        let key = key_of_chunk(position);
        self.chunks.get(&key)
    }

    /// Whether this world is what `update_chunk` makes of the world
    /// `before`: the chunk at `position` was brought up to date and meshed,
    /// and waits to be drawn.
    pub open spec fn updated_at(&self, before: World, position: ChunkPosition) -> bool {
        let key = chunk_key(position);
        &&& self.chunks@.contains_key(key)
        &&& self.chunks@ == before.chunks@.insert(key, self.chunks@[key])
        &&& self.chunks@[key].updated_from(
            before.chunks@[key],
            before.natural_light_stopped_at@,
            self.natural_light_stopped_at@,
        )
        &&& self.chunks_to_draw@ == if before.chunks_to_draw@.contains(position_entry(position)) {
            before.chunks_to_draw@
        } else {
            before.chunks_to_draw@.push(position_entry(position))
        }
    }

    /// Brings the chunk at `position` up to date, meshes it, and lets it wait
    /// to be drawn.
    pub fn update_chunk(&mut self, position: ChunkPosition)
        requires
            old(self).wf(),
            old(self).chunks@.contains_key(chunk_key(position)),
            position.in_world(),
        ensures
            final(self).wf(),
            final(self).updated_at(*old(self), position),
            final(self).chunks_to_update == old(self).chunks_to_update,
            final(self).nb_chunks_generating == old(self).nb_chunks_generating,
    {
        let mut chunk = self.take(position);
        chunk.update_mesh(&mut self.natural_light_stopped_at);
        self.put(chunk);
        self.chunks_to_draw.insert_if_absent(position);
        proof {
            let key = chunk_key(position);
            assert(self.chunks@ =~= old(self).chunks@.insert(key, self.chunks@[key]));
        }
    }

    /// Whether this world is what taking the chunk at `position` from the
    /// front of the chunks to mesh again, and bringing it up to date, makes
    /// of the world `before`.
    pub open spec fn next_updated(&self, before: World, position: ChunkPosition) -> bool {
        &&& self.updated_at(before, position)
        &&& self.chunks_to_update@ == before.chunks_to_update@.drop_first()
        &&& self.nb_chunks_generating == before.nb_chunks_generating
    }

    /// Whether the world `after` is what taking the first `n` of `entries`
    /// from the chunks to mesh again, and bringing each up to date, makes of
    /// the world `before`.
    pub open spec fn updates_done(before: World, after: World, entries: Seq<(i32, i32, i32)>, n: nat) -> bool
        decreases n,
    {
        if n == 0 {
            after == before
        } else {
            exists|mid: World|
                Self::updates_done(before, mid, entries, (n - 1) as nat) && #[trigger] after.next_updated(
                    mid,
                    entry_position(entries[n - 1]),
                )
        }
    }

    /// Brings every chunk that waits for it up to date: each is taken from
    /// the queue, the one that has waited longest first, meshed again, and
    /// lets wait to be drawn.
    #[verifier::rlimit(40)]
    pub fn update_chunks_to_update(&mut self)
        requires
            old(self).wf(),
        ensures
            final(self).wf(),
            final(self).chunks_to_update@.len() == 0,
            Self::updates_done(
                *old(self),
                *final(self),
                old(self).chunks_to_update@,
                old(self).chunks_to_update@.len(),
            ),
    {
        let ghost entries = self.chunks_to_update@;
        let ghost mut done: nat = 0;
        while self.chunks_to_update.len() > 0
            invariant
                self.wf(),
                done <= entries.len(),
                self.chunks_to_update@ == entries.skip(done as int),
                Self::updates_done(*old(self), *self, entries, done),
            decreases self.chunks_to_update@.len(),
        {
            let ghost mid = *self;
            if let Some(chunk_position) = self.chunks_to_update.pop_front() {
                proof {
                    assert(entries.skip(done as int).first() == entries[done as int]);
                    assert(entries.skip(done as int).drop_first() =~= entries.skip(done as int + 1));
                    assert(all_known(mid.chunks_to_update@, mid.chunks@));
                    assert(entry_position(mid.chunks_to_update@[0]).in_world());
                    assert forall|i: int| 0 <= i < self.chunks_to_update@.len() implies entry_position(
                        #[trigger] self.chunks_to_update@[i],
                    ).in_world() && self.chunks@.contains_key(
                        chunk_key(entry_position(self.chunks_to_update@[i])),
                    ) by {
                        assert(self.chunks_to_update@[i] == mid.chunks_to_update@[i + 1]);
                    }
                }
                let ghost popped = *self;
                self.update_chunk(chunk_position);
                proof {
                    assert(self.updated_at(popped, chunk_position));
                    assert(popped.chunks == mid.chunks);
                    assert(popped.natural_light_stopped_at == mid.natural_light_stopped_at);
                    assert(popped.chunks_to_draw == mid.chunks_to_draw);
                    assert(self.updated_at(mid, chunk_position));
                    assert(chunk_position == entry_position(entries[done as int]));
                    assert(self.chunks_to_update@ == mid.chunks_to_update@.drop_first());
                    assert(self.nb_chunks_generating == mid.nb_chunks_generating);
                    assert(Self::updates_done(*old(self), mid, entries, done));
                    done = done + 1;
                    assert(Self::updates_done(*old(self), mid, entries, (done - 1) as nat));
                    assert(self.next_updated(mid, entry_position(entries[done - 1])));
                    assert(Self::updates_done(*old(self), *self, entries, done));
                }
            }
        }
        proof {
            assert(done == entries.len());
        }
    }

    /// Whether this world is what `fill_chunk_at` makes of the world
    /// `before`: the chunk at `position` took the samples `filling` and was
    /// filled from them.
    pub open spec fn filled_at(&self, before: World, position: ChunkPosition, filling: ChunkFilling) -> bool {
        let key = chunk_key(position);
        &&& self.chunks@.contains_key(key)
        &&& self.chunks@ == before.chunks@.insert(key, self.chunks@[key])
        &&& self.chunks@[key].filled_from(
            Chunk { chunk_filling: filling, ..before.chunks@[key] },
            before.chunks@.remove(key),
            before.natural_light_stopped_at@,
            self.natural_light_stopped_at@,
        )
        &&& self.chunks_to_draw == before.chunks_to_draw
        &&& self.chunks_to_update == before.chunks_to_update
        &&& self.nb_chunks_generating == before.nb_chunks_generating
    }

    /// Whether the chunk at `position` can be filled from the samples
    /// `filling`: they reach all of its cells, and up to the sky height of
    /// each of its columns.
    pub open spec fn fills(&self, position: ChunkPosition, filling: ChunkFilling) -> bool {
        &&& filling.covers_chunk(position)
        &&& sky_within(self.natural_light_stopped_at@, position, filling.top())
    }

    /// Decides `fills` for a chunk in the world.
    pub fn can_fill(&self, position: ChunkPosition, filling: &ChunkFilling) -> (b: bool)
        requires
            position.in_world(),
        ensures
            b == self.fills(position, *filling),
    {
        if !filling.reaches_chunk(position) {
            return false;
        }
        let top: i64 = filling.origin.y as i64 + filling.rows as i64;
        if top > i32::MAX as i64 {
            proof {
                assert(sky_within(self.natural_light_stopped_at@, position, filling.top()));
            }
            return true;
        }
        self.natural_light_stopped_at.within(position, top as i32)
    }

    /// How many rows of samples, counted from the lower halo of the chunk at
    /// `position`, it takes to fill the chunk: as many as reach all of its
    /// cells and the sky height of each of its columns, and no more. `None`
    /// if the sky stands higher than samples can reach.
    pub fn rows_needed(&self, position: ChunkPosition) -> (rows: Option<u32>)
        requires
            position.in_world(),
        ensures
            match rows {
                Some(rows) => {
                    &&& 34 <= rows <= 1048576
                    &&& sky_within(self.natural_light_stopped_at@, position, 32 * position.y - 1 + rows)
                    &&& rows == 34 || !sky_within(
                        self.natural_light_stopped_at@,
                        position,
                        32 * position.y - 2 + rows,
                    )
                },
                None => !sky_within(self.natural_light_stopped_at@, position, 32 * position.y + 1048575),
            },
    {
        let lowest: i64 = 32 * (position.y as i64) - 1;
        match self.natural_light_stopped_at.highest_over(position) {
            None => Some(34),
            Some(top) => {
                if top as i64 <= lowest + 34 {
                    Some(34)
                } else if top as i64 > lowest + 1048576 {
                    proof {
                        if sky_within(
                            self.natural_light_stopped_at@,
                            position,
                            32 * position.y + 1048575,
                        ) {
                            lemma_sky_within_grows(
                                self.natural_light_stopped_at@,
                                position,
                                32 * position.y + 1048575,
                                top - 1,
                            );
                        }
                    }
                    None
                } else {
                    Some((top as i64 - lowest) as u32)
                }
            },
        }
    }

    /// Gives the chunk at `position` its samples and fills it.
    #[verifier::rlimit(40)]
    pub fn fill_chunk_at(&mut self, position: ChunkPosition, filling: ChunkFilling)
        requires
            old(self).wf(),
            old(self).chunks@.contains_key(chunk_key(position)),
            position.in_world(),
            old(self).fills(position, filling),
        ensures
            final(self).wf(),
            final(self).filled_at(*old(self), position, filling),
    {
        let mut chunk = self.take(position);
        chunk.chunk_filling = filling;
        chunk.fill_chunk(self);
        self.put(chunk);
        proof {
            let key = chunk_key(position);
            assert(self.chunks@ =~= old(self).chunks@.insert(key, self.chunks@[key]));
        }
    }

    /// Whether this world is what `deliver_from` makes of the world
    /// `before`: what the chunk at `position` held for other chunks was
    /// handed over.
    pub open spec fn delivered_at(&self, before: World, position: ChunkPosition) -> bool {
        let key = chunk_key(position);
        let own = before.chunks@[key];
        let now = self.chunks@[key];
        &&& self.chunks@.contains_key(key)
        &&& (Delivery {
            chunks: views(self.chunks@.remove(key)),
            position,
            drawn: now.drawn,
            cubes: now.cubes@,
            modifications: now.modifications@,
            lights: now.natural_light_modifications@,
            to_update: self.chunks_to_update@,
        }) == lights_delivered(
            edits_delivered(
                Delivery {
                    chunks: views(before.chunks@.remove(key)),
                    position,
                    drawn: own.drawn,
                    cubes: own.cubes@,
                    modifications: own.modifications@,
                    lights: own.natural_light_modifications@,
                    to_update: before.chunks_to_update@,
                },
                own.other_chunks_modifications@,
            ),
            own.other_chunks_natural_light_modifications@,
        )
        &&& now.other_chunks_modifications@.len() == 0
        &&& now.other_chunks_natural_light_modifications@.len() == 0
        &&& now == (Chunk {
            modifications: now.modifications,
            natural_light_modifications: now.natural_light_modifications,
            other_chunks_modifications: now.other_chunks_modifications,
            other_chunks_natural_light_modifications: now.other_chunks_natural_light_modifications,
            ..own
        })
        &&& self.chunks_to_draw == before.chunks_to_draw
        &&& self.natural_light_stopped_at == before.natural_light_stopped_at
        &&& self.nb_chunks_generating == before.nb_chunks_generating
    }

    /// Hands over what the chunk at `position` holds for other chunks.
    #[verifier::rlimit(40)]
    pub fn deliver_from(&mut self, position: ChunkPosition)
        requires
            old(self).wf(),
            old(self).chunks@.contains_key(chunk_key(position)),
        ensures
            final(self).wf(),
            final(self).delivered_at(*old(self), position),
    {
        let mut chunk = self.take(position);
        chunk.modify_other_chunks(self);
        let ghost handed = *self;
        self.put(chunk);
        proof {
            let key = chunk_key(position);
            assert(self.chunks@.remove(key) =~= handed.chunks@);
        }
    }

    /// Whether this world is what `generate_chunk` makes of the world
    /// `before`. A chunk that was not filled yet is filled from `filling`,
    /// and what it then holds for other chunks is handed over. Then the chunk
    /// is brought up to date and meshed, and waits to be drawn, and one chunk
    /// less is being generated.
    pub open spec fn generated_at(&self, before: World, position: ChunkPosition, filling: ChunkFilling) -> bool {
        &&& self.nb_chunks_generating == if before.nb_chunks_generating > 0 {
            (before.nb_chunks_generating - 1) as usize
        } else {
            0
        }
        &&& if before.chunks@[chunk_key(position)].filled {
            self.updated_at(before, position) && self.chunks_to_update == before.chunks_to_update
        } else {
            exists|mid: World, done: World| #[trigger]
                mid.filled_at(before, position, filling) && #[trigger] done.delivered_at(mid, position)
                    && self.updated_at(done, position) && self.chunks_to_update
                    == done.chunks_to_update
        }
    }

    /// Generates the chunk at `position`: see `generated_at`. The samples
    /// are looked at only if the chunk is not filled yet.
    #[verifier::rlimit(40)]
    pub fn generate_chunk(&mut self, position: ChunkPosition, filling: ChunkFilling)
        requires
            old(self).wf(),
            old(self).chunks@.contains_key(chunk_key(position)),
            position.in_world(),
            !old(self).chunks@[chunk_key(position)].filled ==> old(self).fills(position, filling),
        ensures
            final(self).wf(),
            final(self).generated_at(*old(self), position, filling),
    {
        let filled = match self.chunk(position) {
            Some(chunk) => chunk.filled,
            None => true,
        };
        if !filled {
            self.fill_chunk_at(position, filling);
            let ghost mid = *self;
            self.deliver_from(position);
            let ghost done = *self;
            self.update_chunk(position);
            proof {
                assert(mid.filled_at(*old(self), position, filling) && done.delivered_at(mid, position));
            }
        } else {
            self.update_chunk(position);
        }
        if self.nb_chunks_generating > 0 {
            self.nb_chunks_generating -= 1;
        }
    }

    /// Looks at each chunk of the area around the chunk at `center`, makes
    /// those that are not there, and returns those that are to be generated:
    /// all that were not drawn yet, in the order of `area_position`. Each of
    /// them counts as being generated from now on.
    #[verifier::rlimit(40)]
    pub fn create_and_fill_chunks(&mut self, center: ChunkPosition) -> (jobs: Vec<ChunkPosition>)
        requires
            old(self).wf(),
            area_in_world(center),
        ensures
            final(self).wf(),
            (Schedule {
                chunks: views(final(self).chunks@),
                jobs: jobs@,
                generating: final(self).nb_chunks_generating,
            }) == scheduled(
                Schedule {
                    chunks: views(old(self).chunks@),
                    jobs: Seq::empty(),
                    generating: old(self).nb_chunks_generating,
                },
                center,
                AREA_CHUNKS as nat,
            ),
            forall|j: int|
                0 <= j < jobs@.len() ==> (#[trigger] jobs@[j]).in_world() && final(self).chunks@.contains_key(
                    chunk_key(jobs@[j]),
                ),
            *final(self) == (World {
                chunks: final(self).chunks,
                nb_chunks_generating: final(self).nb_chunks_generating,
                ..*old(self)
            }),
    {
        let mut jobs: Vec<ChunkPosition> = Vec::new();
        let ghost start = Schedule {
            chunks: views(self.chunks@),
            jobs: Seq::empty(),
            generating: self.nb_chunks_generating,
        };
        let mut n: usize = 0;
        while n < AREA_CHUNKS
            invariant
                n <= AREA_CHUNKS,
                self.wf(),
                area_in_world(center),
                (Schedule {
                    chunks: views(self.chunks@),
                    jobs: jobs@,
                    generating: self.nb_chunks_generating,
                }) == scheduled(start, center, n as nat),
                forall|j: int|
                    0 <= j < jobs@.len() ==> (#[trigger] jobs@[j]).in_world() && self.chunks@.contains_key(
                        chunk_key(jobs@[j]),
                    ),
                *self == (World {
                    chunks: self.chunks,
                    nb_chunks_generating: self.nb_chunks_generating,
                    ..*old(self)
                }),
            decreases AREA_CHUNKS - n,
        {
            let pos = ChunkPosition {
                x: center.x + ((n / 17) % 17) as i32 - 8,
                y: center.y + 1 - (n / 289) as i32,
                z: center.z + (n % 17) as i32 - 8,
            };
            assert(pos == area_position(center, n as int));
            let ghost before = self.chunks@;
            let ghost base = chunk_or_fresh(views(before), pos);
            self.create_chunk(pos);
            let drawn = match self.chunk(pos) {
                Some(chunk) => chunk.drawn,
                None => true,
            };
            proof {
                assert(views(self.chunks@)[chunk_key(pos)] == base);
                assert(self.chunks@[chunk_key(pos)]@ == base);
                assert(drawn == base.drawn);
                assert(self.chunks@.dom().contains(chunk_key(pos)));
                assert forall|j: int| 0 <= j < jobs@.len() implies self.chunks@.contains_key(
                    chunk_key(#[trigger] jobs@[j]),
                ) by {
                    assert(before.dom().contains(chunk_key(jobs@[j])));
                }
            }
            if !drawn {
                jobs.push(pos);
                if self.nb_chunks_generating < usize::MAX {
                    self.nb_chunks_generating += 1;
                }
            }
            n += 1;
        }
        jobs
    }

    /// Takes up to `limit` chunks from those that wait to be drawn, the one
    /// that has waited longest first, and hands out the mesh of each that has
    /// one, leaving the chunk without it.
    #[verifier::rlimit(40)]
    pub fn draw_chunks_to_draw(&mut self, limit: usize) -> (meshes: Vec<(Mesh, [i32; 3])>)
        requires
            old(self).wf(),
        ensures
            final(self).wf(),
            ({
                let n = if limit <= old(self).chunks_to_draw@.len() {
                    limit as nat
                } else {
                    old(self).chunks_to_draw@.len()
                };
                &&& final(self).chunks_to_draw@ == old(self).chunks_to_draw@.skip(n as int)
                &&& (Drawing { chunks: views(final(self).chunks@), meshes: mesh_models(meshes@) })
                    == drawn_out(
                    Drawing { chunks: views(old(self).chunks@), meshes: Seq::empty() },
                    old(self).chunks_to_draw@,
                    n,
                )
            }),
            *final(self) == (World {
                chunks: final(self).chunks,
                chunks_to_draw: final(self).chunks_to_draw,
                ..*old(self)
            }),
    {
        let mut meshes: Vec<(Mesh, [i32; 3])> = Vec::new();
        let ghost entries = self.chunks_to_draw@;
        let ghost start = Drawing { chunks: views(self.chunks@), meshes: Seq::empty() };
        let mut taken: usize = 0;
        proof {
            assert(mesh_models(meshes@) =~= Seq::empty());
        }
        while taken < limit && self.chunks_to_draw.len() >= 1
            invariant
                taken <= limit,
                taken <= entries.len(),
                self.wf(),
                self.chunks_to_draw@ == entries.skip(taken as int),
                (Drawing { chunks: views(self.chunks@), meshes: mesh_models(meshes@) }) == drawn_out(
                    start,
                    entries,
                    taken as nat,
                ),
                *self == (World {
                    chunks: self.chunks,
                    chunks_to_draw: self.chunks_to_draw,
                    ..*old(self)
                }),
            decreases limit - taken,
        {
            let ghost waiting = self.chunks_to_draw@;
            let ghost drawn_so_far = meshes@;
            if let Some(pos) = self.chunks_to_draw.pop_front() {
                proof {
                    assert(waiting.first() == entries[taken as int]);
                    assert(waiting.drop_first() =~= entries.skip(taken as int + 1));
                    assert(entry_position(waiting[0]).in_world());
                    assert forall|i: int| 0 <= i < self.chunks_to_draw@.len() implies entry_position(
                        #[trigger] self.chunks_to_draw@[i],
                    ).in_world() && self.chunks@.contains_key(
                        chunk_key(entry_position(self.chunks_to_draw@[i])),
                    ) by {
                        assert(self.chunks_to_draw@[i] == waiting[i + 1]);
                    }
                }
                let ghost before = self.chunks@;
                let mut chunk = self.take(pos);
                let ghost taken_chunk = chunk;
                let drawn = chunk.draw_mesh();
                let ghost after = chunk;
                self.put(chunk);
                proof {
                    let key = chunk_key(pos);
                    lemma_views_insert(before.remove(key), key, after);
                    lemma_views_remove(before, key);
                    assert(views(before).remove(key).insert(key, after@) =~= views(before).insert(
                        key,
                        after@,
                    ));
                    assert(views(before)[key] == taken_chunk@);
                    assert(pos == entry_position(entries[taken as int]));
                    assert(taken_chunk@.mesh.buffers.vertices == taken_chunk.mesh.vertices@);
                }
                match drawn {
                    Some(mesh) => {
                        meshes.push(mesh);
                        proof {
                            assert(mesh_models(meshes@) =~= mesh_models(drawn_so_far).push(
                                (mesh.0@, mesh.1),
                            ));
                        }
                    },
                    None => {
                        proof {
                            let key = chunk_key(pos);
                            assert(after@ == taken_chunk@);
                            assert(views(before).insert(key, after@) =~= views(before));
                        }
                    },
                }
                taken += 1;
            }
        }
        meshes
    }

    /// Lets every chunk that was drawn wait to be meshed again. In which
    /// order they come to wait is left open.
    #[verifier::rlimit(40)]
    pub fn force_update_all_chunks(&mut self)
        requires
            old(self).wf(),
        ensures
            final(self).wf(),
            forall|entry: (i32, i32, i32)|
                #[trigger] final(self).chunks_to_update@.contains(entry) <==> old(
                    self,
                ).chunks_to_update@.contains(entry) || (old(self).chunks@.contains_key(
                    chunk_key(entry_position(entry)),
                ) && old(self).chunks@[chunk_key(entry_position(entry))].drawn),
            *final(self) == (World { chunks_to_update: final(self).chunks_to_update, ..*old(self) }),
    {
        broadcast use vstd::std_specs::hash::group_hash_axioms;
        proof {
            lemma_chunk_key_injective_all();
        }
        for key in iter: self.chunks.keys()
            invariant
                forall|k: u128|
                    self.chunks@.dom().contains(k) ==> #[trigger] iter.seq().unref().contains(k),
                forall|i: int|
                    0 <= i < iter.seq().len() ==> self.chunks@.dom().contains(
                        #[trigger] iter.seq().unref()[i],
                    ),
                chunks_valid(self.chunks@),
                all_known(self.chunks_to_draw@, self.chunks@),
                all_known(self.chunks_to_update@, self.chunks@),
                forall|a: ChunkPosition, b: ChunkPosition| #[trigger] chunk_key(a) == #[trigger] chunk_key(b) ==> a == b,
                forall|i: int|
                    0 <= i < iter.index() && self.chunks@[iter.seq().unref()[i]].drawn
                        ==> self.chunks_to_update@.contains(
                        position_entry(self.chunks@[#[trigger] iter.seq().unref()[i]].position),
                    ),
                forall|entry: (i32, i32, i32)|
                    old(self).chunks_to_update@.contains(entry) ==> #[trigger] self.chunks_to_update@.contains(entry),
                forall|entry: (i32, i32, i32)|
                    #[trigger] self.chunks_to_update@.contains(entry) ==> old(
                        self,
                    ).chunks_to_update@.contains(entry) || (self.chunks@.contains_key(
                        chunk_key(entry_position(entry)),
                    ) && self.chunks@[chunk_key(entry_position(entry))].drawn),
                *self == (World { chunks_to_update: self.chunks_to_update, ..*old(self) }),
        {
            assert(*key == iter.seq().unref()[iter.index() as int]);
            assert(self.chunks@.dom().contains(*key));
            if let Some(chunk) = self.chunks.get(key) {
                if chunk.drawn {
                    let ghost before = self.chunks_to_update@;
                    let position = chunk.position;
                    proof {
                        lemma_without_position(before, position_entry(position));
                        lemma_without_position_distinct(before, position_entry(position));
                    }
                    self.chunks_to_update.insert(position);
                    proof {
                        let now = self.chunks_to_update@;
                        let kept = without_position(before, position_entry(position));
                        assert forall|entry: (i32, i32, i32)| #[trigger]
                            now.contains(entry) <==> before.contains(entry) || entry == position_entry(
                                position,
                            ) by {
                            if now.contains(entry) {
                                let i = choose|i: int| 0 <= i < now.len() && now[i] == entry;
                                if i < kept.len() {
                                    assert(kept[i] == entry);
                                    assert(kept.contains(entry));
                                }
                            }
                            if before.contains(entry) && entry != position_entry(position) {
                                assert(kept.contains(entry));
                                let i = choose|i: int| 0 <= i < kept.len() && kept[i] == entry;
                                assert(now[i] == entry);
                            }
                            if entry == position_entry(position) {
                                assert(now[now.len() - 1] == entry);
                            }
                        }
                        assert forall|i: int| 0 <= i < now.len() implies entry_position(
                            #[trigger] now[i],
                        ).in_world() && self.chunks@.contains_key(chunk_key(entry_position(now[i]))) by {
                            assert(now.contains(now[i]));
                            if before.contains(now[i]) {
                                let j = choose|j: int| 0 <= j < before.len() && before[j] == now[i];
                                assert(entry_position(before[j]).in_world());
                            }
                        }
                    }
                }
            }
        }
        proof {
            assert forall|entry: (i32, i32, i32)| (old(self).chunks@.contains_key(
                chunk_key(entry_position(entry)),
            ) && old(self).chunks@[chunk_key(entry_position(entry))].drawn) implies #[trigger] self.chunks_to_update@.contains(
                entry,
            ) by {
                let key = chunk_key(entry_position(entry));
                assert(self.chunks@.dom().contains(key));
                assert(self.chunks@[key].position == entry_position(entry));
                assert(position_entry(entry_position(entry)) == entry);
            }
        }
    }

    /// A world without chunks.
    pub fn new() -> (world: Self)
        ensures
            world.wf(),
            world.chunks@ == Map::<u128, Chunk>::empty(),
            world.chunks_to_draw@.len() == 0,
            world.chunks_to_update@.len() == 0,
            world.nb_chunks_generating == 0,
            world.natural_light_stopped_at@ == Map::<u64, i32>::empty(),
    {
        World {
            chunks: HashMap::new(),
            chunks_to_draw: PositionQueue::new(),
            chunks_to_update: PositionQueue::new(),
            nb_chunks_generating: 0,
            natural_light_stopped_at: SkyHeights::new(),
        }
    }
}

} // verus!
