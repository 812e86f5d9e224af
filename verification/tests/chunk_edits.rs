use voxel_world::chunk::Chunk;
use voxel_world::chunk::Cube;
use voxel_world::positions::ChunkPosition;
use voxel_world::positions::WorldPosition;
use voxel_world::shape::linearize;
use voxel_world::shape::CHUNK_VOLUME;
use voxel_world::sky::SkyHeights;
use voxel_world::structures::add_modification;
use voxel_world::structures::generate_tree;
use voxel_world::structures::LightModification;
use voxel_world::structures::Modification;

fn chunk_at(x: i32, y: i32, z: i32) -> ChunkPosition {
    ChunkPosition { x, y, z }
}

fn no_rows() -> Vec<u32> {
    vec![0u32; 1156]
}

#[test]
fn new_chunk_is_air_without_light() {
    let chunk = Chunk::new(chunk_at(3, -2, 7));
    assert_eq!(chunk.position, chunk_at(3, -2, 7));
    assert_eq!(chunk.cubes.len(), CHUNK_VOLUME);
    assert!(chunk
        .cubes
        .iter()
        .all(|c| *c == Cube { id: 0, natural_light_level: 0, items_light_level: 0 }));
    assert_eq!(chunk.modifications.len(), 0);
    assert_eq!(chunk.other_chunks_modifications.len(), 0);
    assert!(chunk.natural_light_modifications.is_empty());
    assert!(chunk.other_chunks_natural_light_modifications.is_empty());
    assert!(!chunk.filled);
    assert!(!chunk.drawn);
    assert_eq!(chunk.update_count, 0);
    assert!(chunk.mesh.vertices.is_empty());
}

#[test]
fn own_edit_goes_to_the_own_queue() {
    let mut chunk = Chunk::new(chunk_at(0, 0, 0));
    let edit = Modification { id: 3, force: false, position: linearize(5, 5, 5) };
    chunk.add_modification_no_update(edit, chunk_at(0, 0, 0));
    assert_eq!(chunk.modifications.len(), 1);
    assert_eq!(chunk.other_chunks_modifications.len(), 0);
    assert_eq!(chunk.modifications.pop_back(), Some((chunk_at(0, 0, 0), edit)));
}

#[test]
fn unforced_edit_gives_way_to_a_pending_one() {
    let mut chunk = Chunk::new(chunk_at(0, 0, 0));
    let position = linearize(5, 5, 5);
    chunk.add_modification_no_update(Modification { id: 3, force: false, position }, chunk_at(0, 0, 0));
    chunk.add_modification_no_update(Modification { id: 6, force: false, position }, chunk_at(0, 0, 0));
    assert_eq!(chunk.modifications.len(), 1);
    assert_eq!(
        chunk.modifications.pop_back(),
        Some((chunk_at(0, 0, 0), Modification { id: 3, force: false, position }))
    );
}

#[test]
fn forced_edit_takes_the_place_of_a_pending_one() {
    let mut chunk = Chunk::new(chunk_at(0, 0, 0));
    let position = linearize(5, 5, 5);
    let other = linearize(6, 5, 5);
    chunk.add_modification_no_update(Modification { id: 3, force: false, position }, chunk_at(0, 0, 0));
    chunk.add_modification_no_update(
        Modification { id: 1, force: false, position: other },
        chunk_at(0, 0, 0),
    );
    chunk.add_modification_no_update(Modification { id: 5, force: true, position }, chunk_at(0, 0, 0));
    assert_eq!(chunk.modifications.len(), 2);
    assert_eq!(
        chunk.modifications.pop_back(),
        Some((chunk_at(0, 0, 0), Modification { id: 5, force: true, position }))
    );
    assert_eq!(
        chunk.modifications.pop_back(),
        Some((chunk_at(0, 0, 0), Modification { id: 1, force: false, position: other }))
    );
}

#[test]
fn applying_edits_respects_force() {
    let mut chunk = Chunk::new(chunk_at(0, 0, 0));
    let mut sky = SkyHeights::new();
    let stone = linearize(5, 5, 5);
    let air = linearize(6, 5, 5);
    chunk.cubes[stone].id = 3;
    chunk.add_modification_no_update(
        Modification { id: 6, force: false, position: stone },
        chunk_at(0, 0, 0),
    );
    chunk.add_modification_no_update(Modification { id: 6, force: false, position: air }, chunk_at(0, 0, 0));
    let mut heights = no_rows();
    chunk.apply_self_modifications(&mut heights, &mut sky);
    assert_eq!(chunk.cubes[stone].id, 3);
    assert_eq!(chunk.cubes[air].id, 6);
    assert_eq!(chunk.modifications.len(), 0);
    // only the edit that applied is seen by the heights
    assert_eq!(heights[6 + 5 * 34], 5);
    assert_eq!(heights[5 + 5 * 34], 0);

    chunk.add_modification_no_update(Modification { id: 5, force: true, position: stone }, chunk_at(0, 0, 0));
    let mut heights = no_rows();
    chunk.apply_self_modifications(&mut heights, &mut sky);
    assert_eq!(chunk.cubes[stone].id, 5);
}

#[test]
fn applying_edits_keeps_the_light() {
    let mut chunk = Chunk::new(chunk_at(0, 0, 0));
    let mut sky = SkyHeights::new();
    let position = linearize(5, 5, 5);
    chunk.cubes[position].natural_light_level = 77;
    chunk.cubes[position].items_light_level = 3;
    chunk.add_modification_no_update(Modification { id: 4, force: true, position }, chunk_at(0, 0, 0));
    let mut heights = no_rows();
    chunk.apply_self_modifications(&mut heights, &mut sky);
    assert_eq!(
        chunk.cubes[position],
        Cube { id: 4, natural_light_level: 77, items_light_level: 3 }
    );
}

#[test]
fn applying_nothing_leaves_the_sky_alone() {
    let mut chunk = Chunk::new(chunk_at(0, 0, 0));
    let mut sky = SkyHeights::new();
    let mut heights = no_rows();
    chunk.apply_self_modifications(&mut heights, &mut sky);
    assert_eq!(sky.get(0, 0), None);
    assert_eq!(heights, no_rows());
}

#[test]
fn applying_edits_records_sky_heights() {
    let mut chunk = Chunk::new(chunk_at(1, 2, 3));
    let mut sky = SkyHeights::new();
    chunk.add_modification_no_update(
        Modification { id: 3, force: true, position: linearize(5, 9, 7) },
        chunk_at(1, 2, 3),
    );
    let mut heights = no_rows();
    chunk.apply_self_modifications(&mut heights, &mut sky);
    assert_eq!(heights[5 + 7 * 34], 9);
    // a column without a height takes the world height of its highest row,
    // here row 0 of chunk y = 2
    assert_eq!(sky.get(32 + 10, 96 + 10), Some(63));
    // the halo columns are recorded too, and the columns around them
    assert_eq!(sky.get(31, 95), Some(63));
    assert_eq!(sky.get(32 + 32, 96 + 32), Some(63));
    assert_eq!(sky.get(30, 95), Some(63));
    assert_eq!(sky.get(29, 95), None);
    // the column of the edit takes the world height of row 9
    assert_eq!(sky.get(32 + 4, 96 + 6), Some(72));
}

#[test]
fn low_sky_height_gives_way_to_a_higher_row() {
    let chunk = Chunk::new(chunk_at(0, 2, 0));
    let mut sky = SkyHeights::new();
    sky.insert(4, 6, 5);
    sky.insert(8, 8, 40);
    let mut heights = no_rows();
    heights[5 + 7 * 34] = 9;
    heights[9 + 9 * 34] = 9;
    chunk.apply_chunk_heights(&heights, &mut sky);
    // a height below the row that was seen is given up for the row's height
    assert_eq!(sky.get(4, 6), Some(72));
    // a column around it that has a height keeps it, one that has none takes
    // the new one
    assert_eq!(sky.get(3, 6), Some(63));
    assert_eq!(sky.get(5, 6), Some(72));
    assert_eq!(sky.get(4, 5), Some(63));
    assert_eq!(sky.get(4, 7), Some(63));
    // a height at or above the row stays
    assert_eq!(sky.get(8, 8), Some(40));
    assert_eq!(sky.get(10, 10), Some(63));
}

#[test]
fn sky_heights_after_a_fill_stand_at_the_chunks_top() {
    let chunk = Chunk::new(chunk_at(0, 2, 0));
    let mut sky = SkyHeights::new();
    let heights = vec![33u32; 1156];
    chunk.apply_chunk_heights(&heights, &mut sky);
    for (gx, gz) in [(-1, -1), (0, 0), (15, 20), (32, 32), (-2, 5), (5, -2), (-2, -1)] {
        assert_eq!(sky.get(gx, gz), Some(96));
    }
    assert_eq!(sky.get(-3, 5), None);
    assert_eq!(sky.get(33, 5), None);
    assert_eq!(sky.get(34, 34), None);
}

#[test]
fn forced_edit_beside_the_halo_is_mirrored_to_the_neighbour() {
    // a forced edit of the cell (1, y, z) of chunk (0, 0, 0) queues, once
    // applied, an edit of the far halo cell of chunk (-1, 0, 0)
    let mut chunk = Chunk::new(chunk_at(0, 0, 0));
    let mut sky = SkyHeights::new();
    let edit = Modification { id: 5, force: true, position: linearize(1, 10, 20) };
    add_modification(edit, WorldPosition { x: 0, y: 9, z: 19 }, &mut chunk);
    assert_eq!(chunk.modifications.len(), 1);
    assert_eq!(chunk.other_chunks_modifications.len(), 0);
    let mut heights = no_rows();
    chunk.apply_self_modifications(&mut heights, &mut sky);
    assert_eq!(chunk.cubes[linearize(1, 10, 20)].id, 5);
    assert_eq!(chunk.other_chunks_modifications.len(), 1);
    assert_eq!(
        chunk.other_chunks_modifications.pop_back(),
        Some((
            chunk_at(-1, 0, 0),
            Modification { id: 5, force: true, position: linearize(33, 10, 20) }
        ))
    );
}

#[test]
fn edit_of_the_last_interior_cell_is_mirrored_forward() {
    let mut chunk = Chunk::new(chunk_at(0, 0, 0));
    let edit = Modification { id: 3, force: false, position: linearize(10, 32, 20) };
    chunk.modify_neighbours(chunk_at(0, 0, 0), &edit);
    assert_eq!(
        chunk.other_chunks_modifications.pop_back(),
        Some((
            chunk_at(0, 1, 0),
            Modification { id: 3, force: false, position: linearize(10, 0, 20) }
        ))
    );
    assert_eq!(chunk.other_chunks_modifications.len(), 0);
}

#[test]
fn corner_cell_is_mirrored_along_each_axis() {
    let mut chunk = Chunk::new(chunk_at(4, 5, 6));
    let edit = Modification { id: 3, force: true, position: linearize(1, 32, 1) };
    chunk.modify_neighbours(chunk_at(4, 5, 6), &edit);
    assert_eq!(chunk.other_chunks_modifications.len(), 3);
    assert_eq!(
        chunk.other_chunks_modifications.pop_back(),
        Some((chunk_at(4, 5, 5), Modification { id: 3, force: true, position: linearize(1, 32, 33) }))
    );
    assert_eq!(
        chunk.other_chunks_modifications.pop_back(),
        Some((chunk_at(4, 6, 6), Modification { id: 3, force: true, position: linearize(1, 0, 1) }))
    );
    assert_eq!(
        chunk.other_chunks_modifications.pop_back(),
        Some((chunk_at(3, 5, 6), Modification { id: 3, force: true, position: linearize(33, 32, 1) }))
    );
}

#[test]
fn inner_cell_has_no_mirror() {
    let mut chunk = Chunk::new(chunk_at(0, 0, 0));
    chunk.modify_neighbours(
        chunk_at(0, 0, 0),
        &Modification { id: 3, force: true, position: linearize(2, 31, 16) },
    );
    // halo cells have none either
    chunk.modify_neighbours(
        chunk_at(0, 0, 0),
        &Modification { id: 3, force: true, position: linearize(0, 33, 16) },
    );
    assert_eq!(chunk.other_chunks_modifications.len(), 0);
}

#[test]
fn mirror_in_the_own_halo_goes_to_the_own_queue() {
    // the voxel (32, 5, 5) is the first interior cell of chunk (1, 0, 0): its
    // mirror is the upper halo cell of the chunk that queues it
    let mut chunk = Chunk::new(chunk_at(0, 0, 0));
    let edit = Modification { id: 6, force: false, position: linearize(1, 6, 6) };
    add_modification(edit, WorldPosition { x: 32, y: 5, z: 5 }, &mut chunk);
    assert_eq!(chunk.other_chunks_modifications.len(), 1);
    assert_eq!(chunk.other_chunks_modifications.pop_back(), Some((chunk_at(1, 0, 0), edit)));
    assert_eq!(chunk.modifications.len(), 1);
    assert_eq!(
        chunk.modifications.pop_back(),
        Some((
            chunk_at(0, 0, 0),
            Modification { id: 6, force: false, position: linearize(33, 6, 6) }
        ))
    );
}

#[test]
fn mirror_in_the_own_halo_shows_at_once() {
    // the voxel (-1, 4, 6) is cell (32, 5, 7) of chunk (-1, 0, 0) and lies in
    // the lower halo of chunk (0, 0, 0), at cell (0, 5, 7)
    let mut chunk = Chunk::new(chunk_at(0, 0, 0));
    assert_eq!(linearize(32, 5, 7), 8294);
    assert_eq!(linearize(0, 5, 7), 8262);
    let edit = Modification { id: 6, force: false, position: 8294 };
    add_modification(edit, WorldPosition { x: -1, y: 4, z: 6 }, &mut chunk);
    assert!(chunk.modifications.contains_key(8262, chunk_at(0, 0, 0)));
    assert!(!chunk.other_chunks_modifications.contains_key(8262, chunk_at(0, 0, 0)));
    assert!(chunk.other_chunks_modifications.contains_key(8294, chunk_at(-1, 0, 0)));
    assert_eq!(chunk.other_chunks_modifications.len(), 1);
    // the chunk's own grid shows the edit without waiting for the neighbour
    let mut sky = SkyHeights::new();
    let mut heights = no_rows();
    chunk.apply_self_modifications(&mut heights, &mut sky);
    assert_eq!(chunk.cubes[8262].id, 6);
    assert_eq!(chunk.other_chunks_modifications.len(), 1);
}

#[test]
fn mirror_in_the_own_halo_keeps_the_rule_of_force() {
    let mut chunk = Chunk::new(chunk_at(0, 0, 0));
    let halo = linearize(0, 5, 7);
    chunk.add_modification_no_update(Modification { id: 3, force: false, position: halo }, chunk_at(0, 0, 0));
    // an unforced mirror gives way to the edit that is pending for the cell
    add_modification(
        Modification { id: 6, force: false, position: linearize(32, 5, 7) },
        WorldPosition { x: -1, y: 4, z: 6 },
        &mut chunk,
    );
    assert_eq!(chunk.modifications.len(), 1);
    assert_eq!(
        chunk.modifications.pop_back(),
        Some((chunk_at(0, 0, 0), Modification { id: 3, force: false, position: halo }))
    );
    chunk.add_modification_no_update(Modification { id: 3, force: false, position: halo }, chunk_at(0, 0, 0));
    // a forced one takes its place
    add_modification(
        Modification { id: 5, force: true, position: linearize(32, 5, 7) },
        WorldPosition { x: -1, y: 4, z: 6 },
        &mut chunk,
    );
    assert_eq!(
        chunk.modifications.pop_back(),
        Some((chunk_at(0, 0, 0), Modification { id: 5, force: true, position: halo }))
    );
    assert_eq!(chunk.modifications.len(), 0);
}

#[test]
fn mirror_in_another_chunks_halo_waits_for_delivery() {
    // the voxel (32, 0, 5) is cell (1, 1, 6) of chunk (1, 0, 0): one mirror
    // lies in the halo of the chunk that queues it, the other in that of
    // chunk (1, -1, 0)
    let mut chunk = Chunk::new(chunk_at(0, 0, 0));
    let edit = Modification { id: 5, force: true, position: linearize(1, 1, 6) };
    add_modification(edit, WorldPosition { x: 32, y: 0, z: 5 }, &mut chunk);
    assert_eq!(chunk.modifications.len(), 1);
    assert!(chunk.modifications.contains_key(linearize(33, 1, 6), chunk_at(0, 0, 0)));
    assert_eq!(chunk.other_chunks_modifications.len(), 2);
    assert_eq!(chunk.other_chunks_modifications.pop_back(), Some((chunk_at(1, 0, 0), edit)));
    assert_eq!(
        chunk.other_chunks_modifications.pop_back(),
        Some((chunk_at(1, -1, 0), Modification { id: 5, force: true, position: linearize(1, 33, 6) }))
    );
}

#[test]
fn pending_edit_of_another_chunk_yields_only_to_force() {
    let mut chunk = Chunk::new(chunk_at(0, 0, 0));
    let position = linearize(5, 6, 6);
    let there = WorldPosition { x: 36, y: 5, z: 5 };
    add_modification(Modification { id: 6, force: false, position }, there, &mut chunk);
    add_modification(Modification { id: 3, force: false, position }, there, &mut chunk);
    assert_eq!(chunk.other_chunks_modifications.len(), 1);
    add_modification(Modification { id: 5, force: true, position }, there, &mut chunk);
    assert_eq!(chunk.other_chunks_modifications.len(), 1);
    assert_eq!(
        chunk.other_chunks_modifications.pop_back(),
        Some((chunk_at(1, 0, 0), Modification { id: 5, force: true, position }))
    );
}

#[test]
fn tree_in_the_middle_of_a_chunk() {
    let mut chunk = Chunk::new(chunk_at(0, 0, 0));
    generate_tree(WorldPosition { x: 10, y: 10, z: 10 }, &mut chunk);
    // six of wood and a hundred of leaves, one of which meets the trunk's top
    assert_eq!(chunk.modifications.len(), 105);
    assert_eq!(chunk.other_chunks_modifications.len(), 0);
    let mut sky = SkyHeights::new();
    let mut heights = no_rows();
    chunk.apply_self_modifications(&mut heights, &mut sky);
    for y in 10..16 {
        assert_eq!(chunk.cubes[linearize(11, y + 1, 11)].id, 5);
    }
    // the crown: five by five, four high, from one below the trunk's top
    assert_eq!(chunk.cubes[linearize(11, 17, 11)].id, 6);
    assert_eq!(chunk.cubes[linearize(9, 16, 9)].id, 6);
    assert_eq!(chunk.cubes[linearize(13, 19, 13)].id, 6);
    assert_eq!(chunk.cubes[linearize(11, 20, 11)].id, 0);
    assert_eq!(chunk.cubes[linearize(8, 17, 11)].id, 0);
    let wood = chunk.cubes.iter().filter(|c| c.id == 5).count();
    let leaves = chunk.cubes.iter().filter(|c| c.id == 6).count();
    assert_eq!(wood, 6);
    assert_eq!(leaves, 99);
}

#[test]
fn tree_ends_with_the_highest_leaf_of_the_far_corner() {
    let mut chunk = Chunk::new(chunk_at(0, 0, 0));
    generate_tree(WorldPosition { x: 10, y: 10, z: 10 }, &mut chunk);
    assert_eq!(
        chunk.modifications.pop_back(),
        Some((
            chunk_at(0, 0, 0),
            Modification { id: 6, force: false, position: linearize(13, 19, 13) }
        ))
    );
    assert_eq!(
        chunk.modifications.pop_back(),
        Some((
            chunk_at(0, 0, 0),
            Modification { id: 6, force: false, position: linearize(13, 18, 13) }
        ))
    );
}

#[test]
fn tree_at_the_seam_reaches_the_neighbour() {
    let mut chunk = Chunk::new(chunk_at(0, 0, 0));
    generate_tree(WorldPosition { x: 0, y: 10, z: 10 }, &mut chunk);
    // the two rows of leaves at x = -2 and x = -1 belong to chunk (-1, 0, 0)
    assert!(chunk.other_chunks_modifications.contains_key(linearize(31, 16, 11), chunk_at(-1, 0, 0)));
    assert!(chunk.other_chunks_modifications.contains_key(linearize(32, 16, 11), chunk_at(-1, 0, 0)));
    // the leaf at x = -1 lies beside the seam: its mirror is this chunk's
    // halo, and waits in the chunk's own queue
    assert!(chunk.modifications.contains_key(linearize(0, 16, 11), chunk_at(0, 0, 0)));
    assert!(!chunk.other_chunks_modifications.contains_key(linearize(0, 16, 11), chunk_at(0, 0, 0)));
    // forty leaves abroad
    assert_eq!(chunk.other_chunks_modifications.len(), 40);
    // the trunk stands in the first interior column; sixty leaves and six of
    // wood, less the leaf at the trunk's top, and the twenty mirrors
    assert_eq!(chunk.modifications.len(), 85);
    let mut sky = SkyHeights::new();
    let mut heights = no_rows();
    chunk.apply_self_modifications(&mut heights, &mut sky);
    assert_eq!(chunk.cubes[linearize(0, 16, 11)].id, 6);
    assert_eq!(chunk.cubes[linearize(1, 16, 11)].id, 5);
}

#[test]
fn light_modification_is_a_plain_record() {
    let raise = LightModification { light_level: 9, position: 4 };
    assert_eq!(raise, LightModification { light_level: 9, position: 4 });
}
