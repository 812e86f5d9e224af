use voxel_world::chunk::Chunk;
use voxel_world::chunk::Cube;
use voxel_world::chunk_filling::terrain;
use voxel_world::chunk_filling::ChunkFilling;
use voxel_world::chunk_filling::ColumnSample;
use voxel_world::chunk_filling::NOISE_UNIT;
use voxel_world::positions::ChunkPosition;
use voxel_world::positions::WorldPosition;
use voxel_world::shape::linearize;

fn column(height: i32, tree_density: i32, tree_chance: i32) -> ColumnSample {
    ColumnSample { height, tree_density, tree_chance }
}

fn origin() -> ChunkPosition {
    ChunkPosition { x: 0, y: 0, z: 0 }
}

#[test]
fn caverns_are_air_where_the_rock_is_thin() {
    assert_eq!(NOISE_UNIT, 65536);
    assert_eq!(terrain(0, column(0, 0, 0), 32769), (0, false));
    assert_eq!(terrain(0, column(0, 0, 0), 32768), (3, false));
    assert_eq!(terrain(-100, column(0, 0, 0), 65536), (0, false));
    assert_eq!(terrain(-100, column(0, 0, 0), -65536), (3, false));
    // the column's samples do not matter down there
    assert_eq!(terrain(0, column(65536, 65536, 65536), 0), (3, false));
}

#[test]
fn ground_stands_sixteen_high_around_sixteen() {
    // a height sample of zero puts the ground at 16
    assert_eq!(terrain(1, column(0, 0, 0), 65536), (7, false));
    assert_eq!(terrain(15, column(0, 0, 0), 0), (7, false));
    assert_eq!(terrain(16, column(0, 0, 0), 0), (0, false));
    // half a unit more puts it at 24, a full unit less at 0
    assert_eq!(terrain(23, column(32768, 0, 0), 0), (7, false));
    assert_eq!(terrain(24, column(32768, 0, 0), 0), (0, false));
    assert_eq!(terrain(1, column(-65536, 0, 0), 0), (0, false));
    assert_eq!(terrain(31, column(65536, 0, 0), 0), (7, false));
    assert_eq!(terrain(32, column(65536, 0, 0), 0), (0, false));
    // between two voxels: ground at 16 and a bit
    assert_eq!(terrain(16, column(1, 0, 0), 0), (7, false));
    assert_eq!(terrain(17, column(1, 0, 0), 0), (0, false));
}

#[test]
fn trees_grow_on_the_first_voxel_of_air() {
    assert_eq!(terrain(16, column(0, 16385, 32769), 0), (0, true));
    assert_eq!(terrain(16, column(0, 16384, 32769), 0), (0, false));
    assert_eq!(terrain(16, column(0, 16385, 32768), 0), (0, false));
    assert_eq!(terrain(17, column(0, 65536, 65536), 0), (0, false));
    assert_eq!(terrain(15, column(0, 65536, 65536), 0), (7, false));
    assert_eq!(terrain(17, column(1, 65536, 65536), 0), (0, true));
    // none in the caverns
    assert_eq!(terrain(0, column(-65536, 65536, 65536), 65536), (0, false));
}

#[test]
fn samples_must_fit_the_footprint() {
    let columns = vec![column(0, 0, 0); 1156];
    assert!(ChunkFilling::sampled(origin(), 34, columns.clone(), vec![0; 1156 * 34]).is_some());
    assert!(ChunkFilling::sampled(origin(), 34, columns.clone(), vec![0; 1156 * 33]).is_none());
    assert!(ChunkFilling::sampled(origin(), 34, vec![column(0, 0, 0); 1155], vec![0; 1156 * 34]).is_none());
    assert!(ChunkFilling::sampled(origin(), 0, columns.clone(), vec![]).is_some());
    let far = ChunkPosition { x: 33_554_433, y: 0, z: 0 };
    assert!(ChunkFilling::sampled(far, 1, columns, vec![0; 1156]).is_none());
}

#[test]
fn samples_reach_from_the_lower_halo_up() {
    let filling = ChunkFilling::sampled(
        ChunkPosition { x: 1, y: -1, z: 2 },
        40,
        vec![column(0, 0, 0); 1156],
        vec![0; 1156 * 40],
    )
    .unwrap();
    assert_eq!(filling.origin, WorldPosition { x: 31, y: -33, z: 63 });
    assert!(filling.reaches(WorldPosition { x: 31, y: -33, z: 63 }));
    assert!(filling.reaches(WorldPosition { x: 64, y: 6, z: 96 }));
    assert!(!filling.reaches(WorldPosition { x: 65, y: 6, z: 96 }));
    assert!(!filling.reaches(WorldPosition { x: 64, y: 7, z: 96 }));
    assert!(!filling.reaches(WorldPosition { x: 30, y: 0, z: 70 }));
    assert!(filling.reaches_chunk(ChunkPosition { x: 1, y: -1, z: 2 }));
    assert!(!filling.reaches_chunk(ChunkPosition { x: 1, y: 0, z: 2 }));
    assert!(!ChunkFilling::new().reaches(WorldPosition { x: 0, y: 0, z: 0 }));
    assert!(!ChunkFilling::new().reaches_chunk(origin()));
}

#[test]
fn samples_are_looked_up_by_voxel() {
    let mut columns = vec![column(-65536, 0, 0); 1156];
    // the column of the voxel (3, ., 5): cell (4, ., 6) of the footprint
    columns[4 + 34 * 6] = column(0, 65536, 65536);
    let mut caverns = vec![0; 1156 * 34];
    // the voxel (3, -1, 5) in the lowest row, the voxel (3, 0, 5) above it
    caverns[4 + 34 * 6] = 65536;
    let filling = ChunkFilling::sampled(origin(), 34, columns, caverns).unwrap();
    assert_eq!(filling.sample(WorldPosition { x: 3, y: -1, z: 5 }), (0, false));
    assert_eq!(filling.sample(WorldPosition { x: 3, y: 0, z: 5 }), (3, false));
    assert_eq!(filling.sample(WorldPosition { x: 4, y: -1, z: 5 }), (3, false));
    assert_eq!(filling.sample(WorldPosition { x: 3, y: 7, z: 5 }), (7, false));
    assert_eq!(filling.sample(WorldPosition { x: 3, y: 16, z: 5 }), (0, true));
    assert_eq!(filling.sample(WorldPosition { x: 3, y: 7, z: 6 }), (0, false));
    assert_eq!(filling.sample(WorldPosition { x: -1, y: 1, z: -1 }), (0, false));
}

#[test]
fn the_same_samples_give_the_same_terrain() {
    let build = || {
        let mut columns = Vec::new();
        let mut caverns = Vec::new();
        for i in 0..1156i32 {
            columns.push(column(i * 113 - 60000, i * 57, 65536 - i * 31));
        }
        for i in 0..(1156 * 34) as i32 {
            caverns.push((i * 7919) % 131072 - 65536);
        }
        ChunkFilling::sampled(origin(), 34, columns, caverns).unwrap()
    };
    let one = build();
    let other = build();
    let mut chunk = Chunk::new(origin());
    for x in -1..33 {
        for y in -1..33 {
            for z in -1..33 {
                let p = WorldPosition { x, y, z };
                assert_eq!(one.sample(p), other.sample(p));
                assert_eq!(one.sample(p), one.sample(p));
                assert_eq!(one.fill_block(p, &mut chunk, false), other.fill_block(p, &mut chunk, false));
            }
        }
    }
    assert_eq!(chunk.modifications.len(), 0);
}

#[test]
fn fill_block_gives_the_least_light_and_plants_trees() {
    let mut columns = vec![column(0, 0, 0); 1156];
    columns[11 + 34 * 11] = column(0, 65536, 65536);
    let filling = ChunkFilling::sampled(origin(), 34, columns, vec![0; 1156 * 34]).unwrap();
    let mut chunk = Chunk::new(origin());
    let sand = filling.fill_block(WorldPosition { x: 10, y: 5, z: 10 }, &mut chunk, true);
    assert_eq!(sand, Cube { id: 7, natural_light_level: 5, items_light_level: 0 });
    assert_eq!(chunk.modifications.len(), 0);
    let stone = filling.fill_block(WorldPosition { x: 10, y: 0, z: 10 }, &mut chunk, true);
    assert_eq!(stone, Cube { id: 3, natural_light_level: 5, items_light_level: 0 });
    // without structures no tree is planted
    let air = filling.fill_block(WorldPosition { x: 10, y: 16, z: 10 }, &mut chunk, false);
    assert_eq!(air, Cube { id: 0, natural_light_level: 5, items_light_level: 0 });
    assert_eq!(chunk.modifications.len(), 0);
    let air = filling.fill_block(WorldPosition { x: 10, y: 16, z: 10 }, &mut chunk, true);
    assert_eq!(air.id, 0);
    assert_eq!(chunk.modifications.len(), 105);
    assert!(chunk.modifications.contains_key(linearize(11, 17, 11), origin()));
    assert!(chunk.modifications.contains_key(linearize(11, 22, 11), origin()));
}

#[test]
fn the_cube_does_not_depend_on_the_chunk_or_on_structures() {
    let mut columns = vec![column(0, 0, 0); 1156];
    columns[11 + 34 * 11] = column(0, 65536, 65536);
    let one = ChunkFilling::sampled(origin(), 34, columns.clone(), vec![0; 1156 * 34]).unwrap();
    let other = ChunkFilling::sampled(origin(), 34, columns, vec![0; 1156 * 34]).unwrap();
    let mut here = Chunk::new(origin());
    let mut there = Chunk::new(ChunkPosition { x: 7, y: -2, z: 3 });
    there.add_modification_no_update(
        voxel_world::structures::Modification { id: 3, force: true, position: 77 },
        ChunkPosition { x: 7, y: -2, z: 3 },
    );
    for y in [-1, 0, 1, 15, 16, 17, 32] {
        let p = WorldPosition { x: 10, y, z: 10 };
        let with = one.fill_block(p, &mut here, true);
        let without = other.fill_block(p, &mut there, false);
        assert_eq!(with, without);
        assert_eq!(one.fill_block(p, &mut here, true), with);
    }
}
