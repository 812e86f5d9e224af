use voxel_world::chunk::Chunk;
use voxel_world::chunk_filling::ChunkFilling;
use voxel_world::chunk_filling::ColumnSample;
use voxel_world::lighting::NaturalLightModification;
use voxel_world::meshing::Quad;
use voxel_world::positions::ChunkPosition;
use voxel_world::positions::WorldPosition;
use voxel_world::shape::linearize;
use voxel_world::structures::add_modification;
use voxel_world::structures::Modification;
use voxel_world::world::is_area_in_world;
use voxel_world::world::key_of_chunk;
use voxel_world::world::World;
use voxel_world::world::AREA_CHUNKS;

fn chunk_at(x: i32, y: i32, z: i32) -> ChunkPosition {
    ChunkPosition { x, y, z }
}

/// Samples that put the ground at height 16 everywhere, without trees, over
/// solid rock.
fn flat_ground(position: ChunkPosition) -> ChunkFilling {
    let column = ColumnSample { height: 0, tree_density: 0, tree_chance: 0 };
    ChunkFilling::sampled(position, 34, vec![column; 1156], vec![0; 1156 * 34]).unwrap()
}

/// A world in which the chunk at the origin was generated on flat ground.
fn world_with_ground() -> World {
    let mut world = World::new();
    let origin = chunk_at(0, 0, 0);
    world.create_chunk(origin);
    world.nb_chunks_generating = 1;
    assert!(world.can_fill(origin, &flat_ground(origin)));
    world.generate_chunk(origin, flat_ground(origin));
    world
}

#[test]
fn new_world_is_empty() {
    let world = World::new();
    assert!(world.chunks.is_empty());
    assert_eq!(world.chunks_to_draw.len(), 0);
    assert_eq!(world.chunks_to_update.len(), 0);
    assert_eq!(world.nb_chunks_generating, 0);
    assert!(!world.has_chunk(chunk_at(0, 0, 0)));
    assert!(world.chunk(chunk_at(0, 0, 0)).is_none());
    assert_eq!(world.natural_light_stopped_at.get(0, 0), None);
}

#[test]
fn chunks_are_made_once() {
    let mut world = World::new();
    world.create_chunk(chunk_at(1, 2, 3));
    assert!(world.has_chunk(chunk_at(1, 2, 3)));
    assert!(!world.has_chunk(chunk_at(3, 2, 1)));
    world.chunks.get_mut(&key_of_chunk(chunk_at(1, 2, 3))).unwrap().update_count = 7;
    world.create_chunk(chunk_at(1, 2, 3));
    assert_eq!(world.chunks.len(), 1);
    assert_eq!(world.chunk(chunk_at(1, 2, 3)).unwrap().update_count, 7);
    assert_eq!(world.chunk(chunk_at(1, 2, 3)).unwrap().position, chunk_at(1, 2, 3));
}

#[test]
fn chunk_keys_tell_chunks_apart() {
    let mut keys = std::collections::HashSet::new();
    for x in [-2, -1, 0, 1, i32::MAX, i32::MIN] {
        for y in [-1, 0, 1, i32::MAX, i32::MIN] {
            for z in [-1, 0, 1, i32::MAX, i32::MIN] {
                assert!(keys.insert(key_of_chunk(chunk_at(x, y, z))));
            }
        }
    }
    assert_eq!(key_of_chunk(chunk_at(i32::MIN, i32::MIN, i32::MIN)), 0);
    assert_eq!(key_of_chunk(chunk_at(0, 0, 0)), (1u128 << 95) + (1u128 << 63) + (1u128 << 31));
}

#[test]
fn the_area_around_the_viewpoint_is_scheduled() {
    let mut world = World::new();
    let jobs = world.create_and_fill_chunks(chunk_at(0, 0, 0));
    assert_eq!(AREA_CHUNKS, 1734);
    assert_eq!(jobs.len(), 1734);
    assert_eq!(jobs[0], chunk_at(-8, 1, -8));
    assert_eq!(jobs[1], chunk_at(-8, 1, -7));
    assert_eq!(jobs[17], chunk_at(-7, 1, -8));
    assert_eq!(jobs[289], chunk_at(-8, 0, -8));
    assert_eq!(jobs[1733], chunk_at(8, -4, 8));
    assert_eq!(world.chunks.len(), 1734);
    assert_eq!(world.nb_chunks_generating, 1734);
    assert!(world.has_chunk(chunk_at(8, 1, -8)));
    assert!(!world.has_chunk(chunk_at(9, 0, 0)));
    assert!(!world.has_chunk(chunk_at(0, 2, 0)));
    assert!(!world.has_chunk(chunk_at(0, -5, 0)));
    // chunks that were drawn are not scheduled again
    world.chunks.get_mut(&key_of_chunk(chunk_at(0, 0, 0))).unwrap().drawn = true;
    let again = world.create_and_fill_chunks(chunk_at(0, 0, 0));
    assert_eq!(again.len(), 1733);
    assert!(!again.contains(&chunk_at(0, 0, 0)));
    assert_eq!(world.chunks.len(), 1734);
    assert_eq!(world.nb_chunks_generating, 1734 + 1733);
}

#[test]
fn the_area_follows_the_viewpoint() {
    let mut world = World::new();
    let jobs = world.create_and_fill_chunks(chunk_at(100, -20, 7));
    assert_eq!(jobs[0], chunk_at(92, -19, -1));
    assert_eq!(jobs[1733], chunk_at(108, -24, 15));
}

#[test]
fn generating_fills_lights_and_meshes() {
    let mut world = world_with_ground();
    let origin = chunk_at(0, 0, 0);
    assert_eq!(world.nb_chunks_generating, 0);
    {
        let chunk = world.chunk(origin).unwrap();
        assert!(chunk.filled);
        assert!(chunk.drawn);
        assert_eq!(chunk.update_count, 1);
        assert_eq!(chunk.modifications.len(), 0);
        assert_eq!(chunk.other_chunks_modifications.len(), 0);
        assert!(chunk.other_chunks_natural_light_modifications.is_empty());
        // rock up to height 0, sand up to 15, air above
        assert_eq!(chunk.cubes[linearize(5, 0, 5)].id, 3);
        assert_eq!(chunk.cubes[linearize(5, 1, 5)].id, 3);
        assert_eq!(chunk.cubes[linearize(5, 2, 5)].id, 7);
        assert_eq!(chunk.cubes[linearize(5, 16, 5)].id, 7);
        assert_eq!(chunk.cubes[linearize(5, 17, 5)].id, 0);
        assert_eq!(chunk.cubes[linearize(0, 16, 33)].id, 7);
        // full light in the air, the least in the ground
        assert_eq!(chunk.cubes[linearize(5, 32, 5)].natural_light_level, 255);
        assert_eq!(chunk.cubes[linearize(5, 17, 5)].natural_light_level, 255);
        assert_eq!(chunk.cubes[linearize(5, 16, 5)].natural_light_level, 5);
        assert_eq!(chunk.cubes[linearize(5, 1, 5)].natural_light_level, 5);
        assert_eq!(chunk.cubes[linearize(0, 20, 5)].natural_light_level, 255);
        // the upper halo is lit from the side
        assert_eq!(chunk.cubes[linearize(5, 33, 5)].natural_light_level, 245);
        // one quad: the ground seen from above
        assert_eq!(chunk.mesh.groups[4], vec![Quad { minimum: [1, 16, 1], width: 32, height: 32 }]);
        for face in [0, 1, 2, 3, 5] {
            assert!(chunk.mesh.groups[face].is_empty());
        }
        assert_eq!(chunk.mesh.vertices, vec![[1, 17, 1], [1, 17, 33], [33, 17, 1], [33, 17, 33]]);
        assert_eq!(chunk.mesh.indices, vec![0, 1, 2, 1, 3, 2]);
        assert_eq!(chunk.mesh.layers, vec![10, 10, 10, 10]);
        assert_eq!(chunk.mesh.light_levels, vec![255, 255, 255, 255]);
        assert_eq!(chunk.mesh.ambient_occlusion, vec![3, 3, 3, 3]);
    }
    // the sky stands at the chunk's top
    assert_eq!(world.natural_light_stopped_at.get(5, 5), Some(32));
    // light was handed to the chunks around, which were made for it
    for around in [chunk_at(-1, 0, 0), chunk_at(1, 0, 0), chunk_at(0, 1, 0), chunk_at(0, 0, -1), chunk_at(0, 0, 1)] {
        let chunk = world.chunk(around).unwrap();
        assert!(!chunk.filled);
        assert!(!chunk.natural_light_modifications.is_empty());
    }
    assert!(world.chunk(chunk_at(1, 0, 0)).unwrap().natural_light_modifications.contains(
        &NaturalLightModification { light_level: 245, position: linearize(0, 20, 20) }
    ));
    // the chunk waits to be drawn
    assert_eq!(world.chunks_to_draw.len(), 1);
    assert_eq!(world.chunks_to_update.len(), 0);
    let meshes = world.draw_chunks_to_draw(16);
    assert_eq!(meshes.len(), 1);
    assert_eq!(meshes[0].1, [0, 0, 0]);
    assert_eq!(meshes[0].0.vertices.len(), 4);
    assert_eq!(world.chunks_to_draw.len(), 0);
    assert!(world.chunk(origin).unwrap().mesh.vertices.is_empty());
}

#[test]
fn generating_again_only_meshes() {
    let mut world = world_with_ground();
    let origin = chunk_at(0, 0, 0);
    world.generate_chunk(origin, ChunkFilling::new());
    let chunk = world.chunk(origin).unwrap();
    assert_eq!(chunk.update_count, 2);
    assert_eq!(chunk.cubes[linearize(5, 16, 5)].id, 7);
    assert_eq!(chunk.mesh.vertices.len(), 4);
    assert_eq!(world.chunks_to_draw.len(), 1);
    assert_eq!(world.nb_chunks_generating, 0);
}

#[test]
fn samples_must_reach_the_sky() {
    let mut world = World::new();
    let origin = chunk_at(0, 0, 0);
    world.create_chunk(origin);
    assert!(world.can_fill(origin, &flat_ground(origin)));
    assert!(!world.can_fill(origin, &flat_ground(chunk_at(0, 1, 0))));
    assert!(!world.can_fill(origin, &ChunkFilling::new()));
    // a column of the footprint whose sky stands above the samples
    world.natural_light_stopped_at.insert(10, 10, 64);
    assert!(!world.can_fill(origin, &flat_ground(origin)));
    let column = ColumnSample { height: 0, tree_density: 0, tree_chance: 0 };
    let higher = ChunkFilling::sampled(origin, 65, vec![column; 1156], vec![0; 1156 * 65]).unwrap();
    assert!(world.can_fill(origin, &higher));
    // a column elsewhere does not matter
    world.natural_light_stopped_at.insert(40, 10, 1000);
    assert!(world.can_fill(origin, &higher));
}

#[test]
fn trees_grow_where_the_samples_say() {
    let mut world = World::new();
    let origin = chunk_at(0, 0, 0);
    world.create_chunk(origin);
    let mut columns = vec![ColumnSample { height: 0, tree_density: 0, tree_chance: 0 }; 1156];
    columns[11 + 34 * 11] = ColumnSample { height: 0, tree_density: 65536, tree_chance: 65536 };
    let filling = ChunkFilling::sampled(origin, 34, columns, vec![0; 1156 * 34]).unwrap();
    world.generate_chunk(origin, filling);
    let chunk = world.chunk(origin).unwrap();
    // the trunk stands on the ground, six high
    for y in 17..23 {
        assert_eq!(chunk.cubes[linearize(11, y, 11)].id, 5);
    }
    assert_eq!(chunk.cubes[linearize(11, 23, 11)].id, 6);
    assert_eq!(chunk.cubes[linearize(9, 22, 13)].id, 6);
    assert_eq!(chunk.cubes[linearize(11, 26, 11)].id, 0);
    assert_eq!(chunk.cubes.iter().filter(|c| c.id == 5).count(), 6);
    assert_eq!(chunk.cubes.iter().filter(|c| c.id == 6).count(), 99);
    // under the crown it is darker than in the open
    assert!(chunk.cubes[linearize(12, 18, 12)].natural_light_level < 255);
    assert_eq!(chunk.cubes[linearize(20, 18, 20)].natural_light_level, 255);
}

#[test]
fn edits_reach_the_neighbour_and_its_mirror_reaches_back() {
    let mut world = world_with_ground();
    let origin = chunk_at(0, 0, 0);
    let beside = chunk_at(1, 0, 0);
    world.draw_chunks_to_draw(16);
    // the chunk beside the origin edits the last interior cell of the origin
    let mut chunk = world.chunks.remove(&key_of_chunk(beside)).unwrap();
    let edit = Modification { id: 5, force: true, position: linearize(32, 21, 6) };
    add_modification(edit, WorldPosition { x: 31, y: 20, z: 5 }, &mut chunk);
    // the mirror lies in the chunk's own halo and is its own at once
    assert_eq!(chunk.other_chunks_modifications.len(), 1);
    assert_eq!(chunk.modifications.len(), 1);
    assert!(chunk.modifications.contains_key(linearize(0, 21, 6), beside));
    chunk.modify_other_chunks(&mut world);
    assert_eq!(chunk.other_chunks_modifications.len(), 0);
    assert_eq!(chunk.modifications.len(), 1);
    // the origin was drawn, so it is meshed again
    assert_eq!(world.chunks_to_update.len(), 1);
    assert!(world.chunk(origin).unwrap().modifications.contains_key(linearize(32, 21, 6), origin));
    world.chunks.insert(key_of_chunk(beside), chunk);
    world.update_chunks_to_update();
    assert_eq!(world.chunks_to_update.len(), 0);
    assert_eq!(world.chunks_to_draw.len(), 1);
    {
        let there = world.chunk(origin).unwrap();
        assert_eq!(there.cubes[linearize(32, 21, 6)].id, 5);
        assert_eq!(there.update_count, 2);
        assert_eq!(there.modifications.len(), 0);
        assert!(there.mesh.vertices.len() > 4);
        // the edit lies beside the seam: its own mirror waits for the chunk beside
        assert!(there.other_chunks_modifications.contains_key(linearize(0, 21, 6), beside));
    }
    // once the chunk beside applies the mirror, its halo holds what the
    // origin holds
    let mut chunk = world.chunks.remove(&key_of_chunk(beside)).unwrap();
    let mut heights = vec![0u32; 1156];
    chunk.apply_self_modifications(&mut heights, &mut world.natural_light_stopped_at);
    assert_eq!(
        chunk.cubes[linearize(0, 21, 6)].id,
        world.chunk(origin).unwrap().cubes[linearize(32, 21, 6)].id
    );
}

#[test]
fn edits_of_chunks_that_are_not_there_make_them() {
    let mut world = World::new();
    let mut chunk = Chunk::new(chunk_at(0, 0, 0));
    add_modification(
        Modification { id: 6, force: false, position: linearize(10, 10, 10) },
        WorldPosition { x: 73, y: -23, z: 9 },
        &mut chunk,
    );
    chunk.other_chunks_natural_light_modifications.push((
        NaturalLightModification { light_level: 50, position: linearize(3, 3, 3) },
        chunk_at(5, 5, 5),
    ));
    chunk.other_chunks_natural_light_modifications.push((
        NaturalLightModification { light_level: 0, position: linearize(3, 3, 3) },
        chunk_at(6, 6, 6),
    ));
    chunk.modify_other_chunks(&mut world);
    assert_eq!(world.chunks.len(), 3);
    let target = world.chunk(chunk_at(2, -1, 0)).unwrap();
    assert_eq!(target.modifications.len(), 1);
    assert!(target.modifications.contains_key(linearize(10, 10, 10), chunk_at(2, -1, 0)));
    assert_eq!(
        world.chunk(chunk_at(5, 5, 5)).unwrap().natural_light_modifications,
        vec![NaturalLightModification { light_level: 50, position: linearize(3, 3, 3) }]
    );
    // a raise that raises nothing is dropped, but the chunk is made
    assert!(world.chunk(chunk_at(6, 6, 6)).unwrap().natural_light_modifications.is_empty());
    // none of them was drawn
    assert_eq!(world.chunks_to_update.len(), 0);
    assert!(chunk.other_chunks_natural_light_modifications.is_empty());
}

#[test]
fn only_so_many_chunks_are_drawn_at_once() {
    let mut world = World::new();
    for x in 0..3 {
        let position = chunk_at(x, 0, 0);
        world.create_chunk(position);
        let chunk = world.chunks.get_mut(&key_of_chunk(position)).unwrap();
        chunk.cubes[linearize(5, 5, 5)].id = 3;
        world.update_chunk(position);
    }
    world.create_chunk(chunk_at(9, 0, 0));
    world.update_chunk(chunk_at(9, 0, 0));
    assert_eq!(world.chunks_to_draw.len(), 4);
    assert!(world.draw_chunks_to_draw(0).is_empty());
    assert_eq!(world.chunks_to_draw.len(), 4);
    let first = world.draw_chunks_to_draw(2);
    assert_eq!(first.len(), 2);
    assert_eq!(first[0].1, [0, 0, 0]);
    assert_eq!(first[1].1, [32, 0, 0]);
    assert_eq!(first[0].0.vertices.len(), 24);
    assert_eq!(world.chunks_to_draw.len(), 2);
    // a chunk without a mesh is taken from the queue and hands out nothing
    let rest = world.draw_chunks_to_draw(16);
    assert_eq!(rest.len(), 1);
    assert_eq!(rest[0].1, [64, 0, 0]);
    assert_eq!(world.chunks_to_draw.len(), 0);
    assert!(world.draw_chunks_to_draw(16).is_empty());
}

#[test]
fn every_drawn_chunk_can_be_asked_to_mesh_again() {
    let mut world = World::new();
    for x in 0..4 {
        world.create_chunk(chunk_at(x, 0, 0));
    }
    world.update_chunk(chunk_at(1, 0, 0));
    world.update_chunk(chunk_at(3, 0, 0));
    world.force_update_all_chunks();
    assert_eq!(world.chunks_to_update.len(), 2);
    world.force_update_all_chunks();
    assert_eq!(world.chunks_to_update.len(), 2);
    let mut waiting = vec![
        world.chunks_to_update.pop_front().unwrap(),
        world.chunks_to_update.pop_front().unwrap(),
    ];
    waiting.sort_by_key(|p| p.x);
    assert_eq!(waiting, vec![chunk_at(1, 0, 0), chunk_at(3, 0, 0)]);
}

#[test]
fn updating_counts_and_queues() {
    let mut world = World::new();
    let position = chunk_at(0, 0, 0);
    world.create_chunk(position);
    world.update_chunk(position);
    world.update_chunk(position);
    let chunk = world.chunk(position).unwrap();
    assert!(chunk.drawn);
    assert!(!chunk.filled);
    assert_eq!(chunk.update_count, 2);
    assert_eq!(world.chunks_to_draw.len(), 1);
    world.chunks.get_mut(&key_of_chunk(position)).unwrap().update_count = u32::MAX;
    world.update_chunk(position);
    assert_eq!(world.chunk(position).unwrap().update_count, u32::MAX);
}

#[test]
fn rows_of_samples_follow_the_sky() {
    let mut world = World::new();
    let position = chunk_at(0, 2, 0);
    // without a sky the chunk's own rows and its halo
    assert_eq!(world.rows_needed(position), Some(34));
    // a sky within the chunk changes nothing
    world.natural_light_stopped_at.insert(5, 5, 70);
    assert_eq!(world.rows_needed(position), Some(34));
    world.natural_light_stopped_at.insert(5, 6, 97);
    assert_eq!(world.rows_needed(position), Some(34));
    // the samples start at height 63: 35 rows reach up to, not including, 98
    world.natural_light_stopped_at.insert(6, 6, 98);
    assert_eq!(world.rows_needed(position), Some(35));
    world.natural_light_stopped_at.insert(-1, 32, 163);
    assert_eq!(world.rows_needed(position), Some(100));
    assert_eq!(world.natural_light_stopped_at.highest_over(position), Some(163));
    assert!(world.natural_light_stopped_at.within(position, 163));
    assert!(!world.natural_light_stopped_at.within(position, 162));
    // columns outside the footprint do not count
    world.natural_light_stopped_at.insert(33, 0, 5000);
    world.natural_light_stopped_at.insert(0, -2, 5000);
    assert_eq!(world.rows_needed(position), Some(100));
    assert_eq!(world.natural_light_stopped_at.highest_over(chunk_at(5, 5, 5)), None);
    assert!(world.natural_light_stopped_at.within(chunk_at(5, 5, 5), i32::MIN));
    // a sky out of reach
    world.natural_light_stopped_at.insert(0, 0, 63 + 1048576);
    assert_eq!(world.rows_needed(position), Some(1048576));
    world.natural_light_stopped_at.insert(0, 0, 64 + 1048576);
    assert_eq!(world.rows_needed(position), None);
}

#[test]
fn the_area_must_lie_in_the_world() {
    assert!(is_area_in_world(chunk_at(0, 0, 0)));
    assert!(is_area_in_world(chunk_at(33_554_424, 33_554_431, -33_554_424)));
    assert!(!is_area_in_world(chunk_at(33_554_425, 0, 0)));
    assert!(!is_area_in_world(chunk_at(0, 33_554_432, 0)));
    assert!(!is_area_in_world(chunk_at(0, -33_554_429, 0)));
    assert!(is_area_in_world(chunk_at(0, -33_554_428, 0)));
}

#[test]
fn an_unforced_edit_and_its_mirror_agree_where_the_cells_agreed() {
    // leaves at the seam: the last interior cell here, the lower halo there
    let mut here = Chunk::new(chunk_at(0, 0, 0));
    let mut there = Chunk::new(chunk_at(1, 0, 0));
    let mut world = World::new();
    let edit = Modification { id: 6, force: false, position: linearize(32, 9, 9) };
    add_modification(edit, WorldPosition { x: 31, y: 8, z: 8 }, &mut here);
    let mut heights = vec![0u32; 1156];
    here.apply_self_modifications(&mut heights, &mut world.natural_light_stopped_at);
    world.chunks.insert(key_of_chunk(chunk_at(1, 0, 0)), there);
    here.modify_other_chunks(&mut world);
    there = world.chunks.remove(&key_of_chunk(chunk_at(1, 0, 0))).unwrap();
    let mut heights = vec![0u32; 1156];
    there.apply_self_modifications(&mut heights, &mut world.natural_light_stopped_at);
    assert_eq!(here.cubes[linearize(32, 9, 9)].id, 6);
    assert_eq!(there.cubes[linearize(0, 9, 9)].id, 6);
    // where the halo held something else, leaves give way there
    let mut here = Chunk::new(chunk_at(0, 0, 0));
    let mut there = Chunk::new(chunk_at(1, 0, 0));
    there.cubes[linearize(0, 9, 9)].id = 3;
    let mut world = World::new();
    add_modification(edit, WorldPosition { x: 31, y: 8, z: 8 }, &mut here);
    let mut heights = vec![0u32; 1156];
    here.apply_self_modifications(&mut heights, &mut world.natural_light_stopped_at);
    world.chunks.insert(key_of_chunk(chunk_at(1, 0, 0)), there);
    here.modify_other_chunks(&mut world);
    there = world.chunks.remove(&key_of_chunk(chunk_at(1, 0, 0))).unwrap();
    let mut heights = vec![0u32; 1156];
    there.apply_self_modifications(&mut heights, &mut world.natural_light_stopped_at);
    assert_eq!(here.cubes[linearize(32, 9, 9)].id, 6);
    assert_eq!(there.cubes[linearize(0, 9, 9)].id, 3);
}
