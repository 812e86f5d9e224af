use voxel_world::chunk::Chunk;
use voxel_world::chunk_filling::ChunkFilling;
use voxel_world::chunk_filling::ColumnSample;
use voxel_world::lighting::cast_natural_light;
use voxel_world::lighting::diffuse_light_from_pos;
use voxel_world::lighting::recalculate_diffuse_light;
use voxel_world::lighting::recalculate_natural_light;
use voxel_world::lighting::NaturalLightModification;
use voxel_world::lighting::DIFFUSE_ATTENUATION;
use voxel_world::lighting::MIN_LIGHT_LEVEL;
use voxel_world::lighting::PROFOUND_CHUNK;
use voxel_world::positions::ChunkPosition;
use voxel_world::shape::delinearize;
use voxel_world::shape::linearize;
use voxel_world::world::World;

fn chunk_at(x: i32, y: i32, z: i32) -> ChunkPosition {
    ChunkPosition { x, y, z }
}

fn light_at(chunk: &Chunk, x: u32, y: u32, z: u32) -> u8 {
    chunk.cubes[linearize(x, y, z)].natural_light_level
}

/// Samples of open air over the footprint of a chunk, `rows` rows high.
fn open_air(position: ChunkPosition, rows: u32) -> ChunkFilling {
    let column = ColumnSample { height: -65536, tree_density: 0, tree_chance: 0 };
    ChunkFilling::sampled(position, rows, vec![column; 1156], vec![65536; 1156 * rows as usize]).unwrap()
}

/// Samples of ground up to the height `ground` over the footprint of a chunk.
fn ground_up_to(position: ChunkPosition, rows: u32, ground: i32) -> ChunkFilling {
    let column = ColumnSample { height: (ground - 16) * 4096, tree_density: 0, tree_chance: 0 };
    ChunkFilling::sampled(position, rows, vec![column; 1156], vec![0; 1156 * rows as usize]).unwrap()
}

#[test]
fn constants() {
    assert_eq!(MIN_LIGHT_LEVEL, 5);
    assert_eq!(DIFFUSE_ATTENUATION, 10);
    assert_eq!(PROFOUND_CHUNK, -4);
}

#[test]
fn light_fades_by_ten_with_each_step() {
    let mut chunk = Chunk::new(chunk_at(0, 0, 0));
    diffuse_light_from_pos(&mut chunk, 17, 17, 17, 100, true);
    assert_eq!(light_at(&chunk, 17, 17, 17), 100);
    assert_eq!(light_at(&chunk, 16, 17, 17), 90);
    assert_eq!(light_at(&chunk, 18, 17, 17), 90);
    assert_eq!(light_at(&chunk, 17, 16, 17), 90);
    assert_eq!(light_at(&chunk, 17, 17, 18), 90);
    assert_eq!(light_at(&chunk, 18, 18, 17), 80);
    assert_eq!(light_at(&chunk, 18, 18, 18), 70);
    assert_eq!(light_at(&chunk, 20, 15, 19), 30);
    assert_eq!(light_at(&chunk, 26, 17, 17), 10);
    assert_eq!(light_at(&chunk, 27, 17, 17), 0);
    assert_eq!(light_at(&chunk, 17, 8, 17), 10);
    assert_eq!(light_at(&chunk, 17, 7, 17), 0);
    assert_eq!(light_at(&chunk, 22, 22, 17), 0);
    // nothing left the interior
    assert!(chunk.other_chunks_natural_light_modifications.is_empty());
}

#[test]
fn light_at_or_under_the_least_is_not_taken() {
    let mut chunk = Chunk::new(chunk_at(0, 0, 0));
    diffuse_light_from_pos(&mut chunk, 17, 17, 17, 5, true);
    assert_eq!(light_at(&chunk, 17, 17, 17), 0);
    diffuse_light_from_pos(&mut chunk, 17, 17, 17, 6, true);
    assert_eq!(light_at(&chunk, 17, 17, 17), 6);
    assert_eq!(light_at(&chunk, 16, 17, 17), 0);
    diffuse_light_from_pos(&mut chunk, 17, 17, 17, 16, true);
    assert_eq!(light_at(&chunk, 17, 17, 17), 16);
    assert_eq!(light_at(&chunk, 16, 17, 17), 6);
}

#[test]
fn light_never_lowers_light() {
    let mut chunk = Chunk::new(chunk_at(0, 0, 0));
    chunk.cubes[linearize(17, 17, 17)].natural_light_level = 250;
    chunk.cubes[linearize(18, 17, 17)].natural_light_level = 200;
    chunk.cubes[linearize(17, 18, 17)].natural_light_level = 90;
    let before = chunk.cubes.clone();
    diffuse_light_from_pos(&mut chunk, 17, 17, 17, 100, true);
    // the first cell of a spread keeps a light that was higher
    assert_eq!(light_at(&chunk, 17, 17, 17), 250);
    assert_eq!(light_at(&chunk, 18, 17, 17), 200);
    assert_eq!(light_at(&chunk, 17, 18, 17), 90);
    assert_eq!(light_at(&chunk, 16, 17, 17), 90);
    for i in 0..chunk.cubes.len() {
        assert!(chunk.cubes[i].natural_light_level >= before[i].natural_light_level);
        assert_eq!(chunk.cubes[i].id, before[i].id);
        assert_eq!(chunk.cubes[i].items_light_level, before[i].items_light_level);
    }
}

#[test]
fn spreading_twice_changes_nothing() {
    let mut chunk = Chunk::new(chunk_at(0, 0, 0));
    chunk.cubes[linearize(15, 17, 17)].id = 3;
    chunk.cubes[linearize(17, 19, 17)].id = 4;
    chunk.cubes[linearize(17, 17, 15)].id = 6;
    chunk.cubes[linearize(19, 17, 17)].natural_light_level = 120;
    diffuse_light_from_pos(&mut chunk, 17, 17, 17, 150, true);
    let once = chunk.cubes.clone();
    diffuse_light_from_pos(&mut chunk, 17, 17, 17, 150, true);
    assert!(chunk.cubes == once);
    diffuse_light_from_pos(&mut chunk, 17, 17, 17, 150, false);
    assert!(chunk.cubes == once);
}

#[test]
fn opaque_cells_take_no_light() {
    let mut chunk = Chunk::new(chunk_at(0, 0, 0));
    chunk.cubes[linearize(18, 17, 17)].id = 3;
    diffuse_light_from_pos(&mut chunk, 17, 17, 17, 100, true);
    assert_eq!(light_at(&chunk, 18, 17, 17), 0);
    // the cell behind is reached around the stone
    assert_eq!(light_at(&chunk, 19, 17, 17), 60);
    // light that arrives at an opaque cell goes nowhere
    let mut dark = Chunk::new(chunk_at(0, 0, 0));
    dark.cubes[linearize(17, 17, 17)].id = 1;
    diffuse_light_from_pos(&mut dark, 17, 17, 17, 200, true);
    assert!(dark.cubes.iter().all(|c| c.natural_light_level == 0));
}

#[test]
fn translucent_cells_let_part_of_the_light_through() {
    let mut chunk = Chunk::new(chunk_at(0, 0, 0));
    chunk.cubes[linearize(18, 17, 17)].id = 4;
    chunk.cubes[linearize(17, 18, 17)].id = 6;
    diffuse_light_from_pos(&mut chunk, 17, 17, 17, 100, true);
    // nine tenths of 90 through glass, eight tenths through leaves
    assert_eq!(light_at(&chunk, 18, 17, 17), 81);
    assert_eq!(light_at(&chunk, 17, 18, 17), 72);
    assert_eq!(light_at(&chunk, 19, 17, 17), 71);
    assert_eq!(light_at(&chunk, 17, 19, 17), 62);
    // glass as the first cell of a spread
    let mut glass = Chunk::new(chunk_at(0, 0, 0));
    glass.cubes[linearize(17, 17, 17)].id = 4;
    diffuse_light_from_pos(&mut glass, 17, 17, 17, 255, true);
    assert_eq!(light_at(&glass, 17, 17, 17), 229);
    assert_eq!(light_at(&glass, 16, 17, 17), 219);
}

#[test]
fn light_that_leaves_the_interior_is_queued_for_the_neighbour() {
    let mut chunk = Chunk::new(chunk_at(2, 3, 4));
    diffuse_light_from_pos(&mut chunk, 1, 17, 17, 30, true);
    // the halo takes the light
    assert_eq!(light_at(&chunk, 0, 17, 17), 20);
    let queued = &chunk.other_chunks_natural_light_modifications;
    assert!(queued.contains(&(
        NaturalLightModification { light_level: 20, position: linearize(33, 17, 17) },
        chunk_at(1, 3, 4)
    )));
    assert!(queued.contains(&(
        NaturalLightModification { light_level: 10, position: linearize(33, 16, 17) },
        chunk_at(1, 3, 4)
    )));
    assert!(queued.contains(&(
        NaturalLightModification { light_level: 0, position: linearize(33, 15, 17) },
        chunk_at(1, 3, 4)
    )));
    for (raise, target) in queued.iter() {
        assert_eq!(*target, chunk_at(1, 3, 4));
        assert_eq!(delinearize(raise.position)[0], 33);
    }
}

#[test]
fn light_leaves_upwards_and_forwards_too() {
    let mut chunk = Chunk::new(chunk_at(0, 0, 0));
    diffuse_light_from_pos(&mut chunk, 17, 32, 32, 20, true);
    let queued = &chunk.other_chunks_natural_light_modifications;
    // two from the cell itself, and eight of no light from the cells around
    assert_eq!(queued.len(), 10);
    assert_eq!(
        queued[6],
        (NaturalLightModification { light_level: 10, position: linearize(17, 0, 32) }, chunk_at(0, 1, 0))
    );
    assert_eq!(
        queued[9],
        (NaturalLightModification { light_level: 10, position: linearize(17, 32, 0) }, chunk_at(0, 0, 1))
    );
    assert_eq!(
        queued[0],
        (NaturalLightModification { light_level: 0, position: linearize(16, 0, 32) }, chunk_at(0, 1, 0))
    );
    assert_eq!(light_at(&chunk, 17, 33, 32), 10);
    assert_eq!(light_at(&chunk, 17, 32, 33), 10);
}

#[test]
fn recalculating_spreads_from_every_bright_cell() {
    let mut chunk = Chunk::new(chunk_at(0, 0, 0));
    chunk.cubes[linearize(10, 10, 10)].natural_light_level = 60;
    chunk.cubes[linearize(20, 20, 20)].natural_light_level = 40;
    // too dim to give any away
    chunk.cubes[linearize(5, 25, 5)].natural_light_level = 15;
    recalculate_diffuse_light(&mut chunk);
    assert_eq!(light_at(&chunk, 10, 10, 10), 60);
    assert_eq!(light_at(&chunk, 11, 10, 10), 50);
    assert_eq!(light_at(&chunk, 10, 15, 10), 10);
    assert_eq!(light_at(&chunk, 20, 21, 20), 30);
    assert_eq!(light_at(&chunk, 20, 20, 23), 10);
    assert_eq!(light_at(&chunk, 5, 25, 5), 15);
    assert_eq!(light_at(&chunk, 5, 25, 6), 0);
}

#[test]
fn pending_raises_are_spread_from_their_cells() {
    let mut chunk = Chunk::new(chunk_at(0, 0, 0));
    chunk.natural_light_modifications.push(NaturalLightModification {
        light_level: 50,
        position: linearize(33, 17, 17),
    });
    chunk.natural_light_modifications.push(NaturalLightModification {
        light_level: 30,
        position: linearize(10, 10, 10),
    });
    chunk.apply_self_natural_light_modifications();
    assert!(chunk.natural_light_modifications.is_empty());
    assert_eq!(light_at(&chunk, 33, 17, 17), 50);
    assert_eq!(light_at(&chunk, 32, 17, 17), 40);
    assert_eq!(light_at(&chunk, 10, 10, 10), 30);
    assert_eq!(light_at(&chunk, 10, 11, 10), 20);
}

#[test]
fn deep_chunks_are_dark() {
    let world = World::new();
    let mut chunk = Chunk::new(chunk_at(0, -4, 0));
    for cube in chunk.cubes.iter_mut() {
        cube.natural_light_level = 99;
    }
    cast_natural_light(&mut chunk, 5, 7, true, &world);
    for y in 1..33 {
        assert_eq!(light_at(&chunk, 5, y, 7), 5);
    }
    // the halo rows and the other columns are left alone
    assert_eq!(light_at(&chunk, 5, 0, 7), 99);
    assert_eq!(light_at(&chunk, 5, 33, 7), 99);
    assert_eq!(light_at(&chunk, 6, 10, 7), 99);
    let mut deeper = Chunk::new(chunk_at(3, -9, 3));
    recalculate_natural_light(&mut deeper, &world);
    for (x, z) in [(0, 0), (1, 1), (17, 20), (33, 33)] {
        for y in 1..33 {
            assert_eq!(light_at(&deeper, x, y, z), 5);
        }
    }
}

#[test]
fn open_air_is_fully_lit() {
    // a ray that stays within the chunk's own cells needs no samples
    let mut world = World::new();
    let mut chunk = Chunk::new(chunk_at(0, 1, 0));
    world.natural_light_stopped_at.insert(4, 6, 64);
    cast_natural_light(&mut chunk, 5, 7, true, &world);
    for y in 1..33 {
        assert_eq!(light_at(&chunk, 5, y, 7), 255);
    }
    assert_eq!(light_at(&chunk, 5, 33, 7), 0);
    assert_eq!(light_at(&chunk, 5, 0, 7), 0);
}

#[test]
fn sky_light_fades_on_the_way_down() {
    let mut world = World::new();
    let mut chunk = Chunk::new(chunk_at(0, 1, 0));
    chunk.chunk_filling = open_air(chunk_at(0, 1, 0), 34);
    chunk.cubes[linearize(5, 25, 7)].id = 4;
    chunk.cubes[linearize(5, 20, 7)].id = 6;
    chunk.cubes[linearize(5, 15, 7)].id = 6;
    chunk.cubes[linearize(5, 10, 7)].id = 3;
    world.natural_light_stopped_at.insert(4, 6, 64);
    cast_natural_light(&mut chunk, 5, 7, false, &world);
    for y in 26..33 {
        assert_eq!(light_at(&chunk, 5, y, 7), 255);
    }
    // nine tenths of 255 through the glass
    for y in 21..26 {
        assert_eq!(light_at(&chunk, 5, y, 7), 229);
    }
    // eight tenths of 229.5 through the leaves, and eight tenths of that
    for y in 16..21 {
        assert_eq!(light_at(&chunk, 5, y, 7), 183);
    }
    for y in 11..16 {
        assert_eq!(light_at(&chunk, 5, y, 7), 146);
    }
    // nothing through the stone, but never less than the least light
    for y in 1..11 {
        assert_eq!(light_at(&chunk, 5, y, 7), 5);
    }
    for y in 1..32 {
        assert!(light_at(&chunk, 5, y, 7) <= light_at(&chunk, 5, y + 1, 7));
    }
}

#[test]
fn halo_columns_are_lit_from_the_samples() {
    let mut world = World::new();
    let mut chunk = Chunk::new(chunk_at(0, 1, 0));
    chunk.chunk_filling = open_air(chunk_at(0, 1, 0), 34);
    // the cells of the halo column are stone, but the voxels are not the
    // chunk's own: the ray goes by what the world has there
    for y in 0..34 {
        chunk.cubes[linearize(0, y, 7)].id = 3;
    }
    world.natural_light_stopped_at.insert(-1, 6, 64);
    cast_natural_light(&mut chunk, 0, 7, true, &world);
    for y in 1..33 {
        assert_eq!(light_at(&chunk, 0, y, 7), 255);
    }
}

#[test]
fn ray_from_above_the_chunk_lights_the_upper_halo() {
    let mut world = World::new();
    let mut chunk = Chunk::new(chunk_at(0, 1, 0));
    chunk.chunk_filling = open_air(chunk_at(0, 1, 0), 66);
    world.natural_light_stopped_at.insert(4, 6, 96);
    cast_natural_light(&mut chunk, 5, 7, true, &world);
    assert_eq!(light_at(&chunk, 5, 33, 7), 255);
    for y in 1..33 {
        assert_eq!(light_at(&chunk, 5, y, 7), 255);
    }
}

#[test]
fn ray_that_ends_above_the_chunk() {
    // ground from height 80 up to the sky at 96: no light arrives
    let mut world = World::new();
    world.natural_light_stopped_at.insert(4, 6, 96);
    let mut filling = Chunk::new(chunk_at(0, 1, 0));
    filling.chunk_filling = ground_up_to(chunk_at(0, 1, 0), 66, 200);
    for cube in filling.cubes.iter_mut() {
        cube.natural_light_level = 77;
    }
    filling.cubes[linearize(5, 1, 7)].natural_light_level = 2;
    cast_natural_light(&mut filling, 5, 7, true, &world);
    // the column goes dark, also while the chunk is being filled
    for y in 1..33 {
        assert_eq!(light_at(&filling, 5, y, 7), 5);
    }
    assert_eq!(light_at(&filling, 5, 33, 7), 77);
    for cube in filling.cubes.iter_mut() {
        cube.natural_light_level = 77;
    }
    cast_natural_light(&mut filling, 5, 7, false, &world);
    for y in 1..33 {
        assert_eq!(light_at(&filling, 5, y, 7), 5);
    }
    assert_eq!(light_at(&filling, 5, 33, 7), 77);
}

#[test]
fn ray_sees_the_chunk_above_once_it_is_filled() {
    let mut world = World::new();
    world.natural_light_stopped_at.insert(4, 6, 96);
    let mut above = Chunk::new(chunk_at(0, 2, 0));
    above.cubes[linearize(5, 9, 7)].id = 4;
    above.filled = true;
    world.chunks.insert(voxel_world::world::key_of_chunk(chunk_at(0, 2, 0)), above);
    let mut chunk = Chunk::new(chunk_at(0, 1, 0));
    chunk.chunk_filling = open_air(chunk_at(0, 1, 0), 66);
    cast_natural_light(&mut chunk, 5, 7, true, &world);
    assert_eq!(light_at(&chunk, 5, 33, 7), 229);
    assert_eq!(light_at(&chunk, 5, 32, 7), 229);
    assert_eq!(light_at(&chunk, 5, 1, 7), 229);
}

#[test]
fn recalculating_twice_changes_nothing() {
    let mut chunk = Chunk::new(chunk_at(0, 0, 0));
    let mut state: u32 = 99;
    for i in 0..chunk.cubes.len() {
        state = state.wrapping_mul(1664525).wrapping_add(1013904223);
        let pick = (state >> 24) % 16;
        if pick < 4 {
            chunk.cubes[i].id = [3, 4, 6, 7][pick as usize];
        }
        if (state >> 12) % 97 == 0 {
            chunk.cubes[i].natural_light_level = (state >> 4) as u8;
        }
    }
    recalculate_diffuse_light(&mut chunk);
    let once = chunk.cubes.clone();
    recalculate_diffuse_light(&mut chunk);
    assert!(chunk.cubes == once);
}

#[test]
fn opaque_voxel_leaves_the_least_light_below() {
    // sky at the chunk's top, stone at row 20: the least light from there down
    let mut world = World::new();
    let mut chunk = Chunk::new(chunk_at(0, 1, 0));
    chunk.cubes[linearize(5, 20, 7)].id = 3;
    world.natural_light_stopped_at.insert(4, 6, 64);
    cast_natural_light(&mut chunk, 5, 7, true, &world);
    for y in 1..21 {
        assert_eq!(light_at(&chunk, 5, y, 7), 5);
    }
    for y in 21..33 {
        assert_eq!(light_at(&chunk, 5, y, 7), 255);
    }
}
