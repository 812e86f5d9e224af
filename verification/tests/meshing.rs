use voxel_world::chunk::Chunk;
use voxel_world::chunk::Cube;
use voxel_world::meshing::count_visible_faces;
use voxel_world::meshing::greedy_mesh;
use voxel_world::meshing::greedy_quads_for_face;
use voxel_world::meshing::quad_uvs;
use voxel_world::meshing::shows_face;
use voxel_world::meshing::Quad;
use voxel_world::meshing::Visibility;
use voxel_world::positions::ChunkPosition;
use voxel_world::shape::linearize;
use voxel_world::shape::CHUNK_VOLUME;

fn air() -> Vec<Cube> {
    vec![Cube { id: 0, natural_light_level: 0, items_light_level: 0 }; CHUNK_VOLUME]
}

fn put(cubes: &mut Vec<Cube>, x: u32, y: u32, z: u32, id: u16) {
    cubes[linearize(x, y, z)].id = id;
}

fn solid_interior(id: u16) -> Vec<Cube> {
    let mut cubes = air();
    for x in 1..33 {
        for y in 1..33 {
            for z in 1..33 {
                put(&mut cubes, x, y, z, id);
            }
        }
    }
    cubes
}

fn area(quads: &[Quad]) -> usize {
    quads.iter().map(|q| (q.width * q.height) as usize).sum()
}

#[test]
fn visibility_of_materials() {
    let cube = |id| Cube { id, natural_light_level: 9, items_light_level: 0 };
    assert_eq!(cube(0).get_visibility(), Visibility::Empty);
    assert_eq!(cube(3).get_visibility(), Visibility::Opaque);
    assert_eq!(cube(4).get_visibility(), Visibility::Translucent);
    assert_eq!(cube(6).get_visibility(), Visibility::Translucent);
    assert_eq!(cube(7).get_visibility(), Visibility::Opaque);
    assert_eq!(cube(7).merge_value(), 7);
    assert_eq!(cube(7).merge_value_facing_neighbour(), 9);
}

#[test]
fn empty_grid_has_no_quads() {
    let mesh = greedy_mesh(&air());
    assert_eq!(mesh.groups.len(), 6);
    assert!(mesh.groups.iter().all(|g| g.is_empty()));
    assert!(mesh.indices.is_empty());
    assert!(mesh.vertices.is_empty());
    assert!(mesh.normals.is_empty());
    assert!(mesh.uvs.is_empty());
    assert!(mesh.layers.is_empty());
    assert!(mesh.light_levels.is_empty());
    assert!(mesh.ambient_occlusion.is_empty());
}

#[test]
fn solid_chunk_has_one_quad_on_each_side() {
    let cubes = solid_interior(3);
    let mesh = greedy_mesh(&cubes);
    assert_eq!(mesh.groups.len(), 6);
    for face in 0..6 {
        assert_eq!(mesh.groups[face].len(), 1);
        assert_eq!(mesh.groups[face][0].width, 32);
        assert_eq!(mesh.groups[face][0].height, 32);
        assert_eq!(count_visible_faces(&cubes, face), 1024);
    }
    assert_eq!(mesh.groups[0][0].minimum, [1, 1, 1]);
    assert_eq!(mesh.groups[1][0].minimum, [1, 1, 1]);
    assert_eq!(mesh.groups[2][0].minimum, [1, 1, 1]);
    assert_eq!(mesh.groups[3][0].minimum, [32, 1, 1]);
    assert_eq!(mesh.groups[4][0].minimum, [1, 32, 1]);
    assert_eq!(mesh.groups[5][0].minimum, [1, 1, 32]);
    assert_eq!(mesh.vertices.len(), 24);
    assert_eq!(mesh.indices.len(), 36);
    assert_eq!(mesh.normals.len(), 24);
    assert_eq!(mesh.uvs.len(), 24);
    assert_eq!(mesh.layers.len(), 24);
    assert_eq!(mesh.light_levels.len(), 24);
    assert_eq!(mesh.ambient_occlusion.len(), 24);
    // the side that looks down x, and the one that looks up x
    assert_eq!(&mesh.vertices[0..4], &[[1, 1, 1], [1, 1, 33], [1, 33, 1], [1, 33, 33]]);
    assert_eq!(&mesh.vertices[12..16], &[[33, 1, 1], [33, 1, 33], [33, 33, 1], [33, 33, 33]]);
    // the one that looks up y: its width runs along z, its height along x
    assert_eq!(&mesh.vertices[16..20], &[[1, 33, 1], [1, 33, 33], [33, 33, 1], [33, 33, 33]]);
    // the one that looks down z: its width runs along x, its height along y
    assert_eq!(&mesh.vertices[8..12], &[[1, 1, 1], [33, 1, 1], [1, 33, 1], [33, 33, 1]]);
    assert_eq!(&mesh.indices[0..6], &[0, 1, 2, 1, 3, 2]);
    assert_eq!(&mesh.indices[6..12], &[4, 6, 5, 5, 6, 7]);
    assert_eq!(&mesh.indices[12..18], &[8, 10, 9, 9, 10, 11]);
    assert_eq!(&mesh.indices[18..24], &[12, 14, 13, 13, 14, 15]);
    assert_eq!(&mesh.indices[24..30], &[16, 17, 18, 17, 19, 18]);
    assert_eq!(&mesh.indices[30..36], &[20, 21, 22, 21, 23, 22]);
    assert_eq!(mesh.normals[0], [-1, 0, 0]);
    assert_eq!(mesh.normals[4], [0, -1, 0]);
    assert_eq!(mesh.normals[8], [0, 0, -1]);
    assert_eq!(mesh.normals[12], [1, 0, 0]);
    assert_eq!(mesh.normals[16], [0, 1, 0]);
    assert_eq!(mesh.normals[23], [0, 0, 1]);
    assert_eq!(&mesh.uvs[0..4], &[[0, 32], [32, 32], [0, 0], [32, 0]]);
    assert_eq!(&mesh.uvs[4..8], &[[32, 32], [0, 32], [32, 0], [0, 0]]);
    assert!(mesh.layers.iter().all(|l| *l == 0));
    assert!(mesh.light_levels.iter().all(|l| *l == 0));
    assert!(mesh.ambient_occlusion.iter().all(|a| *a == 3));
}

#[test]
fn grid_without_air_has_no_quads() {
    let cubes = vec![Cube { id: 3, natural_light_level: 0, items_light_level: 0 }; CHUNK_VOLUME];
    let mesh = greedy_mesh(&cubes);
    assert!(mesh.groups.iter().all(|g| g.is_empty()));
    assert!(mesh.vertices.is_empty());
    for face in 0..6 {
        assert_eq!(count_visible_faces(&cubes, face), 0);
    }
}

#[test]
fn halo_cells_give_no_faces() {
    let mut cubes = air();
    put(&mut cubes, 0, 5, 5, 3);
    put(&mut cubes, 33, 5, 5, 3);
    put(&mut cubes, 5, 0, 5, 3);
    put(&mut cubes, 5, 5, 33, 3);
    let mesh = greedy_mesh(&cubes);
    assert!(mesh.groups.iter().all(|g| g.is_empty()));
}

#[test]
fn single_block_has_six_unit_quads() {
    let mut cubes = air();
    put(&mut cubes, 5, 6, 7, 2);
    let mesh = greedy_mesh(&cubes);
    for face in 0..6 {
        assert_eq!(mesh.groups[face], vec![Quad { minimum: [5, 6, 7], width: 1, height: 1 }]);
        assert_eq!(count_visible_faces(&cubes, face), 1);
    }
    // grass shows its own layer on top and dirt below
    assert_eq!(&mesh.layers[0..4], &[2, 2, 2, 2]);
    assert_eq!(&mesh.layers[4..8], &[1, 1, 1, 1]);
    assert_eq!(&mesh.layers[8..12], &[2, 2, 2, 2]);
    assert_eq!(&mesh.layers[12..16], &[2, 2, 2, 2]);
    assert_eq!(&mesh.layers[16..20], &[7, 7, 7, 7]);
    assert_eq!(&mesh.layers[20..24], &[2, 2, 2, 2]);
    assert_eq!(&mesh.vertices[0..4], &[[5, 6, 7], [5, 6, 8], [5, 7, 7], [5, 7, 8]]);
    assert_eq!(&mesh.vertices[20..24], &[[5, 6, 8], [6, 6, 8], [5, 7, 8], [6, 7, 8]]);
    assert!(mesh.ambient_occlusion.iter().all(|a| *a == 3));
}

#[test]
fn faces_take_the_light_of_the_cell_beyond() {
    let mut cubes = air();
    put(&mut cubes, 5, 6, 7, 3);
    cubes[linearize(5, 6, 7)].natural_light_level = 1;
    cubes[linearize(4, 6, 7)].natural_light_level = 10;
    cubes[linearize(5, 5, 7)].natural_light_level = 20;
    cubes[linearize(5, 6, 6)].natural_light_level = 30;
    cubes[linearize(6, 6, 7)].natural_light_level = 40;
    cubes[linearize(5, 7, 7)].natural_light_level = 50;
    cubes[linearize(5, 6, 8)].natural_light_level = 60;
    let mesh = greedy_mesh(&cubes);
    assert_eq!(
        mesh.light_levels,
        vec![
            10, 10, 10, 10, 20, 20, 20, 20, 30, 30, 30, 30, 40, 40, 40, 40, 50, 50, 50, 50, 60, 60, 60,
            60
        ]
    );
}

#[test]
fn faces_merge_along_u_then_v() {
    let mut cubes = air();
    for x in 5..7 {
        for z in 5..8 {
            put(&mut cubes, x, 9, z, 3);
        }
    }
    let top = greedy_quads_for_face(&cubes, 4);
    // on top the width runs along z and the height along x
    assert_eq!(top, vec![Quad { minimum: [5, 9, 5], width: 3, height: 2 }]);
    let left = greedy_quads_for_face(&cubes, 0);
    assert_eq!(left, vec![Quad { minimum: [5, 9, 5], width: 3, height: 1 }]);
    let back = greedy_quads_for_face(&cubes, 2);
    assert_eq!(back, vec![Quad { minimum: [5, 9, 5], width: 2, height: 1 }]);
    let front = greedy_quads_for_face(&cubes, 5);
    assert_eq!(front, vec![Quad { minimum: [5, 9, 7], width: 2, height: 1 }]);
}

#[test]
fn greedy_quads_of_an_l_shape() {
    let mut cubes = air();
    put(&mut cubes, 5, 9, 5, 3);
    put(&mut cubes, 5, 9, 6, 3);
    put(&mut cubes, 6, 9, 5, 3);
    let top = greedy_quads_for_face(&cubes, 4);
    assert_eq!(
        top,
        vec![
            Quad { minimum: [5, 9, 5], width: 2, height: 1 },
            Quad { minimum: [6, 9, 5], width: 1, height: 1 },
        ]
    );
    assert_eq!(area(&top), count_visible_faces(&cubes, 4));
    assert_eq!(count_visible_faces(&cubes, 4), 3);
    // the faces inside the shape do not show
    assert_eq!(count_visible_faces(&cubes, 0), 2);
    assert_eq!(count_visible_faces(&cubes, 3), 2);
}

#[test]
fn faces_of_different_materials_do_not_merge() {
    let mut cubes = air();
    put(&mut cubes, 5, 9, 5, 3);
    put(&mut cubes, 5, 9, 6, 7);
    put(&mut cubes, 5, 9, 7, 7);
    let top = greedy_quads_for_face(&cubes, 4);
    assert_eq!(
        top,
        vec![
            Quad { minimum: [5, 9, 5], width: 1, height: 1 },
            Quad { minimum: [5, 9, 6], width: 2, height: 1 },
        ]
    );
}

#[test]
fn faces_under_different_light_do_not_merge() {
    let mut cubes = air();
    put(&mut cubes, 5, 9, 5, 3);
    put(&mut cubes, 5, 9, 6, 3);
    put(&mut cubes, 5, 9, 7, 3);
    cubes[linearize(5, 10, 7)].natural_light_level = 7;
    let top = greedy_quads_for_face(&cubes, 4);
    assert_eq!(
        top,
        vec![
            Quad { minimum: [5, 9, 5], width: 2, height: 1 },
            Quad { minimum: [5, 9, 7], width: 1, height: 1 },
        ]
    );
    // from below the light is the same
    let bottom = greedy_quads_for_face(&cubes, 1);
    assert_eq!(bottom, vec![Quad { minimum: [5, 9, 5], width: 3, height: 1 }]);
    // the light of the cells themselves does not matter
    cubes[linearize(5, 9, 6)].natural_light_level = 99;
    assert_eq!(greedy_quads_for_face(&cubes, 1), bottom);
}

#[test]
fn translucent_faces() {
    let mut cubes = air();
    put(&mut cubes, 5, 9, 5, 3);
    put(&mut cubes, 6, 9, 5, 4);
    put(&mut cubes, 7, 9, 5, 4);
    // stone shows through glass, glass does not show against stone or glass
    assert!(shows_face(&cubes, 3, linearize(5, 9, 5)));
    assert!(!shows_face(&cubes, 0, linearize(6, 9, 5)));
    assert!(!shows_face(&cubes, 3, linearize(6, 9, 5)));
    assert!(!shows_face(&cubes, 0, linearize(7, 9, 5)));
    assert!(shows_face(&cubes, 3, linearize(7, 9, 5)));
    assert!(shows_face(&cubes, 4, linearize(6, 9, 5)));
    assert!(!shows_face(&cubes, 4, linearize(6, 10, 5)));
    assert_eq!(count_visible_faces(&cubes, 3), 2);
    assert_eq!(count_visible_faces(&cubes, 0), 1);
}

#[test]
fn quads_hold_as_many_faces_as_show() {
    let mut cubes = air();
    let mut state: u32 = 12345;
    for x in 1..33 {
        for y in 1..33 {
            for z in 1..33 {
                state = state.wrapping_mul(1664525).wrapping_add(1013904223);
                let pick = (state >> 24) % 8;
                if pick < 3 {
                    put(&mut cubes, x, y, z, [3, 4, 7][pick as usize]);
                }
                cubes[linearize(x, y, z)].natural_light_level = ((state >> 16) % 3) as u8;
            }
        }
    }
    for face in 0..6 {
        let quads = greedy_quads_for_face(&cubes, face);
        assert_eq!(area(&quads), count_visible_faces(&cubes, face));
        assert_eq!(greedy_quads_for_face(&cubes, face), quads);
    }
}

#[test]
fn corners_are_darkened_by_the_cells_around() {
    let mut cubes = air();
    put(&mut cubes, 5, 5, 5, 3);
    put(&mut cubes, 6, 6, 5, 3);
    let mesh = greedy_mesh(&cubes);
    let before: usize = mesh.groups[0..4].iter().map(|g| g.len()).sum();
    assert_eq!(mesh.groups[4][0], Quad { minimum: [5, 5, 5], width: 1, height: 1 });
    let first = 4 * before;
    // on top the far side along v lies towards x: the block there takes one
    // from each of the two corners on that side
    assert_eq!(&mesh.ambient_occlusion[first..first + 4], &[3, 3, 2, 2]);
    // a corner between two taken sides is closed
    put(&mut cubes, 5, 6, 6, 3);
    let mesh = greedy_mesh(&cubes);
    let before: usize = mesh.groups[0..4].iter().map(|g| g.len()).sum();
    let first = 4 * before;
    assert_eq!(&mesh.ambient_occlusion[first..first + 4], &[3, 2, 2, 0]);
    // a taken diagonal alone takes one
    let mut cubes = air();
    put(&mut cubes, 5, 5, 5, 3);
    put(&mut cubes, 4, 6, 4, 3);
    let mesh = greedy_mesh(&cubes);
    let before: usize = mesh.groups[0..4].iter().map(|g| g.len()).sum();
    let first = 4 * before;
    assert_eq!(mesh.groups[4][0], Quad { minimum: [5, 5, 5], width: 1, height: 1 });
    assert_eq!(&mesh.ambient_occlusion[first..first + 4], &[2, 3, 3, 3]);
}

#[test]
fn texture_coordinates_run_with_the_quad() {
    let quad = Quad { minimum: [3, 4, 5], width: 7, height: 2 };
    assert_eq!(quad_uvs(0, &quad), [[0, 2], [7, 2], [0, 0], [7, 0]]);
    assert_eq!(quad_uvs(4, &quad), [[0, 2], [7, 2], [0, 0], [7, 0]]);
    assert_eq!(quad_uvs(5, &quad), [[0, 2], [7, 2], [0, 0], [7, 0]]);
    assert_eq!(quad_uvs(1, &quad), [[7, 2], [0, 2], [7, 0], [0, 0]]);
    assert_eq!(quad_uvs(2, &quad), [[7, 2], [0, 2], [7, 0], [0, 0]]);
    assert_eq!(quad_uvs(3, &quad), [[7, 2], [0, 2], [7, 0], [0, 0]]);
}

#[test]
fn chunk_keeps_its_mesh_until_it_is_drawn() {
    let mut chunk = Chunk::new(ChunkPosition { x: 2, y: -1, z: 3 });
    assert!(chunk.draw_mesh().is_none());
    chunk.cubes[linearize(5, 5, 5)].id = 3;
    chunk.greedy_meshing();
    assert_eq!(chunk.mesh.vertices.len(), 24);
    let (mesh, origin) = chunk.draw_mesh().unwrap();
    assert_eq!(origin, [64, -32, 96]);
    assert_eq!(mesh.vertices.len(), 24);
    assert_eq!(mesh.indices.len(), 36);
    assert_eq!(mesh.groups.len(), 6);
    assert!(chunk.mesh.vertices.is_empty());
    assert!(chunk.mesh.indices.is_empty());
    assert!(chunk.draw_mesh().is_none());
}
