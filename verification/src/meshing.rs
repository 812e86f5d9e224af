//! Greedy meshing: the visible faces of a chunk's interior, merged into quads.

use block_mesh::RIGHT_HANDED_Y_UP_CONFIG;
use block_mesh::UnorientedQuad;
use crate::chunk::Cube;
use crate::chunk::cubes_valid;
use crate::items::item;
use crate::items::item_is_transparent;
use crate::items::item_textures;
use crate::items::FACES;
use crate::shape::CHUNK_VOLUME;
use vstd::prelude::*;

verus! {

/// How a voxel shows in a mesh.
#[derive(Clone, Copy, Debug, PartialEq, Eq, Structural)]
pub enum Visibility {
    /// Gives no face.
    Empty,
    /// Gives faces, and can be seen through.
    Translucent,
    /// Gives faces, and hides what is behind.
    Opaque,
}

/// How a voxel of material `id` shows in a mesh.
pub open spec fn visibility_of(id: u16) -> Visibility {
    if id == 0 {
        Visibility::Empty
    } else if item_is_transparent(id) {
        Visibility::Translucent
    } else {
        Visibility::Opaque
    }
}

impl Cube {
    /// How the cube shows in a mesh.
    pub fn get_visibility(&self) -> (v: Visibility)
        requires
            self.id < crate::items::ITEM_COUNT,
        ensures
            v == visibility_of(self.id),
    {
        if self.id == 0 {
            Visibility::Empty
        } else if item(self.id).is_transparent {
            Visibility::Translucent
        } else {
            Visibility::Opaque
        }
    }

    /// What two cubes must share for their faces to merge.
    pub fn merge_value(&self) -> (v: u16)
        ensures
            v == self.id,
    {
        self.id
    }

    /// What the cubes beyond two faces must share for the faces to merge.
    pub fn merge_value_facing_neighbour(&self) -> (v: u8)
        ensures
            v == self.natural_light_level,
    {
        self.natural_light_level
    }
}

/// A rectangle of merged faces: the cell of its lowest corner, its width
/// along the face's u axis and its height along the face's v axis.
#[derive(Clone, Copy, Debug, PartialEq, Eq)]
pub struct Quad {
    pub minimum: [u32; 3],
    pub width: u32,
    pub height: u32,
}

/// How far apart in the grid two cells are that lie one step apart along
/// `axis` (0, 1, 2 for x, y, z).
pub open spec fn axis_stride(axis: int) -> int {
    if axis == 0 {
        1
    } else if axis == 1 {
        34
    } else {
        1156
    }
}

/// The axis that the faces of direction `face` look along: x for 0 and 3, y
/// for 1 and 4, z for 2 and 5.
pub open spec fn normal_axis(face: int) -> int {
    face % 3
}

/// Whether the faces of direction `face` look up their axis (3, 4, 5) or
/// down it (0, 1, 2).
pub open spec fn looks_up(face: int) -> bool {
    face >= 3
}

/// The axis along which the width of a quad of direction `face` runs: z for
/// faces that look along x or y, x for those that look along z.
pub open spec fn u_axis(face: int) -> int {
    if normal_axis(face) == 2 {
        0
    } else {
        2
    }
}

/// The axis along which the height of a quad of direction `face` runs: x for
/// faces that look along y, y for the others.
pub open spec fn v_axis(face: int) -> int {
    if normal_axis(face) == 1 {
        0
    } else {
        1
    }
}

/// The index of the cell that lies in slice `s` of direction `face`, at `u`
/// along the face's u axis and `v` along its v axis.
pub open spec fn face_cell(face: int, s: int, u: int, v: int) -> int {
    s * axis_stride(normal_axis(face)) + u * axis_stride(u_axis(face)) + v * axis_stride(
        v_axis(face),
    )
}

/// The index of the cell beyond the face of direction `face` of the cell at
/// `i`.
pub open spec fn beyond(face: int, i: int) -> int {
    if looks_up(face) {
        i + axis_stride(normal_axis(face))
    } else {
        i - axis_stride(normal_axis(face))
    }
}

/// The cell beyond a face lies one step of `FACES` away.
pub proof fn lemma_beyond_is_a_step(face: int, x: int, y: int, z: int)
    requires
        0 <= face < 6,
    ensures
        beyond(face, crate::shape::cell_index(x, y, z)) == crate::shape::cell_index(
            x + FACES[face][0],
            y + FACES[face][1],
            z + FACES[face][2],
        ),
        face_normal(face)[0] == FACES[face][0],
        face_normal(face)[1] == FACES[face][1],
        face_normal(face)[2] == FACES[face][2],
{
}

/// Whether the cell at `i` shows its face of direction `face`: it is not
/// empty, and the cell beyond is empty, or can be seen through while the
/// cell itself cannot.
pub open spec fn face_visible(cubes: Seq<Cube>, face: int, i: int) -> bool {
    let here = visibility_of(cubes[i].id);
    let there = visibility_of(cubes[beyond(face, i)].id);
    here != Visibility::Empty && (there == Visibility::Empty || (there == Visibility::Translucent
        && here == Visibility::Opaque))
}

/// What two faces of direction `face` must share to merge: the material of
/// the cell, and the light of the cell beyond.
pub open spec fn face_key(cubes: Seq<Cube>, face: int, i: int) -> (u16, u8) {
    (cubes[i].id, cubes[beyond(face, i)].natural_light_level)
}

/// Whether `s`, `u`, `v` name an interior cell.
pub open spec fn inside(s: int, u: int, v: int) -> bool {
    1 <= s <= 32 && 1 <= u <= 32 && 1 <= v <= 32
}

/// The slice of a quad of direction `face`.
pub open spec fn quad_s(face: int, quad: Quad) -> int {
    quad.minimum[normal_axis(face)] as int
}

/// The lowest u of a quad of direction `face`.
pub open spec fn quad_u(face: int, quad: Quad) -> int {
    quad.minimum[u_axis(face)] as int
}

/// The lowest v of a quad of direction `face`.
pub open spec fn quad_v(face: int, quad: Quad) -> int {
    quad.minimum[v_axis(face)] as int
}

/// Whether a quad of direction `face` lies in the interior and has an area.
pub open spec fn quad_valid(face: int, quad: Quad) -> bool {
    &&& 1 <= quad_s(face, quad) <= 32
    &&& 1 <= quad_u(face, quad)
    &&& 1 <= quad_v(face, quad)
    &&& 1 <= quad.width
    &&& 1 <= quad.height
    &&& quad_u(face, quad) + quad.width <= 33
    &&& quad_v(face, quad) + quad.height <= 33
}

/// Whether a quad of direction `face` holds the face of the cell
/// `(s, u, v)`.
pub open spec fn covers(face: int, quad: Quad, s: int, u: int, v: int) -> bool {
    &&& quad_s(face, quad) == s
    &&& quad_u(face, quad) <= u < quad_u(face, quad) + quad.width
    &&& quad_v(face, quad) <= v < quad_v(face, quad) + quad.height
}

/// Whether one of `quads` holds the face of the cell `(s, u, v)`.
pub open spec fn covered(face: int, quads: Seq<Quad>, s: int, u: int, v: int) -> bool {
    exists|k: int| 0 <= k < quads.len() && covers(face, #[trigger] quads[k], s, u, v)
}

/// Whether the face of the cell `(s, u, v)` can join a quad with the key
/// `key` when `quads` are there already: it shows, no quad holds it, and it
/// has the key.
pub open spec fn joins(
    cubes: Seq<Cube>,
    face: int,
    quads: Seq<Quad>,
    key: (u16, u8),
    s: int,
    u: int,
    v: int,
) -> bool {
    &&& face_visible(cubes, face, face_cell(face, s, u, v))
    &&& !covered(face, quads, s, u, v)
    &&& face_key(cubes, face, face_cell(face, s, u, v)) == key
}

/// Where a cell comes in the scan of a direction: slice by slice, within a
/// slice row by row upwards along v, within a row along u.
pub open spec fn scan_order(s: int, u: int, v: int) -> int {
    (s * 34 + v) * 34 + u
}

/// Whether, in a grid, `quads[k]` is the quad that the greedy scan of
/// direction `face` makes next after `quads[..k]`. It starts at the first
/// face in scan order that shows and that none of those quads holds. It is
/// as wide as faces along u can join it, and then as high as whole rows of
/// that width can.
pub open spec fn greedy_at(cubes: Seq<Cube>, face: int, quads: Seq<Quad>, k: int) -> bool {
    let quad = quads[k];
    let earlier = quads.take(k);
    let s = quad_s(face, quad);
    let u = quad_u(face, quad);
    let v = quad_v(face, quad);
    let key = face_key(cubes, face, face_cell(face, s, u, v));
    &&& quad_valid(face, quad)
    &&& forall|s2: int, u2: int, v2: int|
        inside(s2, u2, v2) && scan_order(s2, u2, v2) < scan_order(s, u, v) && face_visible(
            cubes,
            face,
            #[trigger] face_cell(face, s2, u2, v2),
        ) ==> covered(face, earlier, s2, u2, v2)
    &&& forall|a: int, b: int|
        0 <= a < quad.width && 0 <= b < quad.height ==> #[trigger] joins(
            cubes,
            face,
            earlier,
            key,
            s,
            u + a,
            v + b,
        )
    &&& (u + quad.width == 33 || !joins(cubes, face, earlier, key, s, u + quad.width, v))
    &&& (v + quad.height == 33 || exists|a: int|
        0 <= a < quad.width && !#[trigger] joins(cubes, face, earlier, key, s, u + a, v + quad.height))
}

/// The number of faces that `quads` hold.
pub open spec fn quads_area(quads: Seq<Quad>) -> int
    decreases quads.len(),
{
    if quads.len() == 0 {
        0
    } else {
        quads_area(quads.drop_last()) + quads.last().width * quads.last().height
    }
}

/// Whether the cell at `i` lies in the interior.
pub open spec fn interior_cell(i: int) -> bool {
    crate::shape::in_interior(crate::shape::cell_x(i), crate::shape::cell_y(i), crate::shape::cell_z(i))
}

/// The number of interior cells among the first `n` of the grid that show
/// their face of direction `face`: what looking at each cell by itself
/// counts.
pub open spec fn visible_faces(cubes: Seq<Cube>, face: int, n: nat) -> int
    decreases n,
{
    if n == 0 {
        0
    } else {
        visible_faces(cubes, face, (n - 1) as nat) + if interior_cell(n - 1) && face_visible(
            cubes,
            face,
            n - 1,
        ) {
            1int
        } else {
            0int
        }
    }
}

/// The number of flags set among the first `n`.
pub open spec fn count_set(flags: Seq<bool>, n: nat) -> int
    decreases n,
{
    if n == 0 {
        0
    } else {
        count_set(flags, (n - 1) as nat) + if flags[n - 1] {
            1int
        } else {
            0int
        }
    }
}

/// The coordinate of the cell at `i` along `axis`.
pub open spec fn cell_along(axis: int, i: int) -> int {
    if axis == 0 {
        crate::shape::cell_x(i)
    } else if axis == 1 {
        crate::shape::cell_y(i)
    } else {
        crate::shape::cell_z(i)
    }
}

/// Whether one of `quads` holds the face of direction `face` of the cell at
/// `i`.
pub open spec fn held(face: int, quads: Seq<Quad>, i: int) -> bool {
    interior_cell(i) && covered(
        face,
        quads,
        cell_along(normal_axis(face), i),
        cell_along(u_axis(face), i),
        cell_along(v_axis(face), i),
    )
}

/// Slice, u and v name a cell of the grid, and the cell gives them back.
pub proof fn lemma_face_cell(face: int, s: int, u: int, v: int)
    requires
        0 <= face < 6,
        0 <= s < 34,
        0 <= u < 34,
        0 <= v < 34,
    ensures
        0 <= face_cell(face, s, u, v) < CHUNK_VOLUME,
        cell_along(normal_axis(face), face_cell(face, s, u, v)) == s,
        cell_along(u_axis(face), face_cell(face, s, u, v)) == u,
        cell_along(v_axis(face), face_cell(face, s, u, v)) == v,
        interior_cell(face_cell(face, s, u, v)) == inside(s, u, v),
{
}

/// A cell of the grid is the cell that its slice, u and v name.
pub proof fn lemma_cell_face(face: int, i: int)
    requires
        0 <= face < 6,
        0 <= i < CHUNK_VOLUME,
    ensures
        face_cell(
            face,
            cell_along(normal_axis(face), i),
            cell_along(u_axis(face), i),
            cell_along(v_axis(face), i),
        ) == i,
        0 <= cell_along(normal_axis(face), i) < 34,
        0 <= cell_along(u_axis(face), i) < 34,
        0 <= cell_along(v_axis(face), i) < 34,
{
}

/// Setting a flag that was not set adds one to the count.
pub proof fn lemma_count_set_one_more(flags: Seq<bool>, i: int, n: nat)
    requires
        0 <= i < flags.len(),
        n <= flags.len(),
        !flags[i],
    ensures
        count_set(flags.update(i, true), n) == count_set(flags, n) + if i < n {
            1int
        } else {
            0int
        },
    decreases n,
{
    if n > 0 {
        lemma_count_set_one_more(flags, i, (n - 1) as nat);
    }
}

/// Where the flags say which faces show, their count is the count of the
/// faces that show.
pub proof fn lemma_count_set_is_visible(cubes: Seq<Cube>, face: int, flags: Seq<bool>, n: nat)
    requires
        n <= flags.len(),
        forall|i: int|
            0 <= i < n ==> #[trigger] flags[i] == (interior_cell(i) && face_visible(cubes, face, i)),
    ensures
        count_set(flags, n) == visible_faces(cubes, face, n),
    decreases n,
{
    if n > 0 {
        lemma_count_set_is_visible(cubes, face, flags, (n - 1) as nat);
    }
}

/// The strides of a direction: along its normal, its u and its v axis.
fn face_strides(face: usize) -> (strides: (usize, usize, usize))
    requires
        face < 6,
    ensures
        strides.0 == axis_stride(normal_axis(face as int)),
        strides.1 == axis_stride(u_axis(face as int)),
        strides.2 == axis_stride(v_axis(face as int)),
{
    if face % 3 == 0 {
        (1, 1156, 34)
    } else if face % 3 == 1 {
        (34, 1156, 1)
    } else {
        (1156, 1, 34)
    }
}

/// The index of the cell `(s, u, v)` of a direction.
fn cell_at(face: usize, s: usize, u: usize, v: usize) -> (i: usize)
    requires
        face < 6,
        s < 34,
        u < 34,
        v < 34,
    ensures
        i == face_cell(face as int, s as int, u as int, v as int),
        i < CHUNK_VOLUME,
{
    let strides = face_strides(face);
    proof {
        lemma_face_cell(face as int, s as int, u as int, v as int);
    }
    s * strides.0 + u * strides.1 + v * strides.2
}

/// The index of the cell beyond a face of an interior cell.
fn cell_beyond(face: usize, i: usize) -> (j: usize)
    requires
        face < 6,
        i < CHUNK_VOLUME,
        interior_cell(i as int),
    ensures
        j == beyond(face as int, i as int),
        j < CHUNK_VOLUME,
{
    let strides = face_strides(face);
    if face >= 3 {
        i + strides.0
    } else {
        i - strides.0
    }
}

/// Whether an interior cell shows its face of a direction.
pub fn shows_face(cubes: &Vec<Cube>, face: usize, i: usize) -> (b: bool)
    requires
        cubes_valid(cubes@),
        face < 6,
        i < CHUNK_VOLUME,
        interior_cell(i as int),
    ensures
        b == face_visible(cubes@, face as int, i as int),
{
    let here = cubes[i].get_visibility();
    let there = cubes[cell_beyond(face, i)].get_visibility();
    match here {
        Visibility::Empty => false,
        Visibility::Translucent => match there {
            Visibility::Empty => true,
            _ => false,
        },
        Visibility::Opaque => match there {
            Visibility::Opaque => false,
            _ => true,
        },
    }
}

/// Counts, cell by cell, the faces of a direction that show.
pub fn count_visible_faces(cubes: &Vec<Cube>, face: usize) -> (count: usize)
    requires
        cubes_valid(cubes@),
        face < 6,
    ensures
        count == visible_faces(cubes@, face as int, CHUNK_VOLUME as nat),
{
    let mut count: usize = 0;
    let mut i: usize = 0;
    while i < CHUNK_VOLUME
        invariant
            i <= CHUNK_VOLUME,
            cubes_valid(cubes@),
            face < 6,
            count == visible_faces(cubes@, face as int, i as nat),
            count <= i,
        decreases CHUNK_VOLUME - i,
    {
        let cell = crate::shape::delinearize(i);
        if 1 <= cell[0] && cell[0] <= 32 && 1 <= cell[1] && cell[1] <= 32 && 1 <= cell[2] && cell[2]
            <= 32 {
            if shows_face(cubes, face, i) {
                count += 1;
            }
        }
        i += 1;
    }
    count
}

/// What holds of the greedy scan of a direction when it has come to the scan
/// place `bound`: `visited` flags the faces that `quads` hold, each quad is
/// the one the scan makes next after those before it, every face before
/// `bound` that shows is held, and the quads hold as many faces as are
/// flagged.
pub open spec fn scan_state(
    cubes: Seq<Cube>,
    face: int,
    quads: Seq<Quad>,
    visited: Seq<bool>,
    bound: int,
) -> bool {
    &&& visited.len() == CHUNK_VOLUME
    &&& forall|i: int| 0 <= i < CHUNK_VOLUME ==> #[trigger] visited[i] == held(face, quads, i)
    &&& forall|k: int| 0 <= k < quads.len() ==> #[trigger] greedy_at(cubes, face, quads, k)
    &&& forall|s2: int, u2: int, v2: int|
        inside(s2, u2, v2) && scan_order(s2, u2, v2) < bound && face_visible(
            cubes,
            face,
            #[trigger] face_cell(face, s2, u2, v2),
        ) ==> covered(face, quads, s2, u2, v2)
    &&& quads_area(quads) == count_set(visited, CHUNK_VOLUME as nat)
}

/// Whether the cell at `i` lies in the block of a direction that starts at
/// `(s, u, v)` and is `w` wide and `h` high.
pub open spec fn in_block(face: int, i: int, s: int, u: int, v: int, w: int, h: int) -> bool {
    &&& cell_along(normal_axis(face), i) == s
    &&& u <= cell_along(u_axis(face), i) < u + w
    &&& v <= cell_along(v_axis(face), i) < v + h
}

/// With one quad more, the faces held are those held before and those of the
/// new quad.
pub proof fn lemma_covered_push(face: int, quads: Seq<Quad>, quad: Quad, s: int, u: int, v: int)
    ensures
        covered(face, quads.push(quad), s, u, v) == (covered(face, quads, s, u, v) || covers(
            face,
            quad,
            s,
            u,
            v,
        )),
{
    let more = quads.push(quad);
    if covered(face, quads, s, u, v) {
        let k = choose|k: int| 0 <= k < quads.len() && covers(face, #[trigger] quads[k], s, u, v);
        assert(more[k] == quads[k]);
    }
    if covers(face, quad, s, u, v) {
        assert(more[quads.len() as int] == quad);
    }
    if covered(face, more, s, u, v) {
        let k = choose|k: int| 0 <= k < more.len() && covers(face, #[trigger] more[k], s, u, v);
        if k < quads.len() {
            assert(quads[k] == more[k]);
        }
    }
}

/// Whether the face of the cell `(s, u, v)` can join a quad with the key
/// `key`, where `visited` flags the faces that `quads` hold.
fn can_join(
    cubes: &Vec<Cube>,
    visited: &Vec<bool>,
    face: usize,
    s: usize,
    u: usize,
    v: usize,
    key: (u16, u8),
    Ghost(quads): Ghost<Seq<Quad>>,
) -> (b: bool)
    requires
        cubes_valid(cubes@),
        visited@.len() == CHUNK_VOLUME,
        face < 6,
        inside(s as int, u as int, v as int),
        forall|i: int| 0 <= i < CHUNK_VOLUME ==> #[trigger] visited@[i] == held(face as int, quads, i),
    ensures
        b == joins(cubes@, face as int, quads, key, s as int, u as int, v as int),
{
    let i = cell_at(face, s, u, v);
    proof {
        lemma_face_cell(face as int, s as int, u as int, v as int);
    }
    if visited[i] {
        return false;
    }
    if !shows_face(cubes, face, i) {
        return false;
    }
    let there = cell_beyond(face, i);
    cubes[i].merge_value() == key.0 && cubes[there].merge_value_facing_neighbour() == key.1
}

/// The width and height of the quad that the greedy scan makes at the cell
/// `(s, u, v)`, whose face shows and is not held.
#[verifier::rlimit(40)]
fn find_quad(
    cubes: &Vec<Cube>,
    visited: &Vec<bool>,
    face: usize,
    s: usize,
    u: usize,
    v: usize,
    key: (u16, u8),
    Ghost(quads): Ghost<Seq<Quad>>,
) -> (size: (usize, usize))
    requires
        cubes_valid(cubes@),
        visited@.len() == CHUNK_VOLUME,
        face < 6,
        inside(s as int, u as int, v as int),
        forall|i: int| 0 <= i < CHUNK_VOLUME ==> #[trigger] visited@[i] == held(face as int, quads, i),
        joins(cubes@, face as int, quads, key, s as int, u as int, v as int),
    ensures
        1 <= size.0,
        1 <= size.1,
        u + size.0 <= 33,
        v + size.1 <= 33,
        forall|a: int, b: int|
            0 <= a < size.0 && 0 <= b < size.1 ==> #[trigger] joins(
                cubes@,
                face as int,
                quads,
                key,
                s as int,
                u + a,
                v + b,
            ),
        u + size.0 == 33 || !joins(cubes@, face as int, quads, key, s as int, u + size.0, v as int),
        v + size.1 == 33 || exists|a: int|
            0 <= a < size.0 && !#[trigger] joins(
                cubes@,
                face as int,
                quads,
                key,
                s as int,
                u + a,
                v + size.1,
            ),
{
    let mut width: usize = 1;
    let mut wider = true;
    while wider && u + width < 33
        invariant
            cubes_valid(cubes@),
            visited@.len() == CHUNK_VOLUME,
            face < 6,
            inside(s as int, u as int, v as int),
            forall|i: int|
                0 <= i < CHUNK_VOLUME ==> #[trigger] visited@[i] == held(face as int, quads, i),
            1 <= width,
            u + width <= 33,
            forall|a: int|
                0 <= a < width ==> #[trigger] joins(
                    cubes@,
                    face as int,
                    quads,
                    key,
                    s as int,
                    u + a,
                    v as int,
                ),
            !wider ==> !joins(cubes@, face as int, quads, key, s as int, u + width, v as int),
        decreases 33 - width + if wider { 1int } else { 0int },
    {
        if can_join(cubes, visited, face, s, u + width, v, key, Ghost(quads)) {
            width += 1;
        } else {
            wider = false;
        }
    }
    let mut height: usize = 1;
    let mut higher = true;
    while higher && v + height < 33
        invariant
            cubes_valid(cubes@),
            visited@.len() == CHUNK_VOLUME,
            face < 6,
            inside(s as int, u as int, v as int),
            forall|i: int|
                0 <= i < CHUNK_VOLUME ==> #[trigger] visited@[i] == held(face as int, quads, i),
            1 <= width,
            u + width <= 33,
            1 <= height,
            v + height <= 33,
            forall|a: int, b: int|
                0 <= a < width && 0 <= b < height ==> #[trigger] joins(
                    cubes@,
                    face as int,
                    quads,
                    key,
                    s as int,
                    u + a,
                    v + b,
                ),
            !higher ==> exists|a: int|
                0 <= a < width && !#[trigger] joins(
                    cubes@,
                    face as int,
                    quads,
                    key,
                    s as int,
                    u + a,
                    v + height,
                ),
        decreases 33 - height + if higher { 1int } else { 0int },
    {
        let mut along: usize = 0;
        let mut whole = true;
        while whole && along < width
            invariant
                cubes_valid(cubes@),
                visited@.len() == CHUNK_VOLUME,
                face < 6,
                inside(s as int, u as int, v as int),
                forall|i: int|
                    0 <= i < CHUNK_VOLUME ==> #[trigger] visited@[i] == held(face as int, quads, i),
                u + width <= 33,
                v + height < 33,
                along <= width,
                forall|a: int|
                    0 <= a < along ==> #[trigger] joins(
                        cubes@,
                        face as int,
                        quads,
                        key,
                        s as int,
                        u + a,
                        v + height,
                    ),
                !whole ==> along < width && !joins(
                    cubes@,
                    face as int,
                    quads,
                    key,
                    s as int,
                    u + along,
                    v + height,
                ),
            decreases width - along + if whole { 1int } else { 0int },
        {
            if can_join(cubes, visited, face, s, u + along, v + height, key, Ghost(quads)) {
                along += 1;
            } else {
                whole = false;
            }
        }
        if whole {
            height += 1;
        } else {
            higher = false;
        }
    }
    (width, height)
}

/// Flags the faces of a block, none of which was flagged.
#[verifier::rlimit(40)]
fn mark_quad(visited: &mut Vec<bool>, face: usize, s: usize, u: usize, v: usize, width: usize, height: usize)
    requires
        old(visited)@.len() == CHUNK_VOLUME,
        face < 6,
        inside(s as int, u as int, v as int),
        1 <= width,
        1 <= height,
        u + width <= 33,
        v + height <= 33,
        forall|a: int, b: int|
            0 <= a < width && 0 <= b < height ==> !old(visited)@[#[trigger] face_cell(
                face as int,
                s as int,
                u + a,
                v + b,
            )],
    ensures
        final(visited)@.len() == CHUNK_VOLUME,
        forall|i: int|
            0 <= i < CHUNK_VOLUME ==> #[trigger] final(visited)@[i] == (old(visited)@[i] || in_block(
                face as int,
                i,
                s as int,
                u as int,
                v as int,
                width as int,
                height as int,
            )),
        count_set(final(visited)@, CHUNK_VOLUME as nat) == count_set(
            old(visited)@,
            CHUNK_VOLUME as nat,
        ) + width * height,
{
    let mut b: usize = 0;
    while b < height
        invariant
            visited@.len() == CHUNK_VOLUME,
            face < 6,
            inside(s as int, u as int, v as int),
            1 <= width,
            u + width <= 33,
            v + height <= 33,
            b <= height,
            forall|i: int|
                0 <= i < CHUNK_VOLUME ==> #[trigger] visited@[i] == (old(visited)@[i] || in_block(
                    face as int,
                    i,
                    s as int,
                    u as int,
                    v as int,
                    width as int,
                    b as int,
                )),
            forall|a: int, b2: int|
                0 <= a < width && 0 <= b2 < height ==> !old(visited)@[#[trigger] face_cell(
                    face as int,
                    s as int,
                    u + a,
                    v + b2,
                )],
            count_set(visited@, CHUNK_VOLUME as nat) == count_set(old(visited)@, CHUNK_VOLUME as nat)
                + width * b,
        decreases height - b,
    {
        let mut a: usize = 0;
        while a < width
            invariant
                visited@.len() == CHUNK_VOLUME,
                face < 6,
                inside(s as int, u as int, v as int),
                1 <= width,
                u + width <= 33,
                v + height <= 33,
                b < height,
                a <= width,
                forall|i: int|
                    0 <= i < CHUNK_VOLUME ==> #[trigger] visited@[i] == (old(visited)@[i] || in_block(
                        face as int,
                        i,
                        s as int,
                        u as int,
                        v as int,
                        width as int,
                        b as int,
                    ) || in_block(face as int, i, s as int, u as int, v + b, a as int, 1)),
                forall|a2: int, b2: int|
                    0 <= a2 < width && 0 <= b2 < height ==> !old(visited)@[#[trigger] face_cell(
                        face as int,
                        s as int,
                        u + a2,
                        v + b2,
                    )],
                count_set(visited@, CHUNK_VOLUME as nat) == count_set(
                    old(visited)@,
                    CHUNK_VOLUME as nat,
                ) + width * b + a,
            decreases width - a,
        {
            let i = cell_at(face, s, u + a, v + b);
            proof {
                lemma_face_cell(face as int, s as int, u + a, v + b);
                assert(!old(visited)@[face_cell(face as int, s as int, u + a, v + b)]);
                assert(!visited@[i as int]);
                lemma_count_set_one_more(visited@, i as int, CHUNK_VOLUME as nat);
            }
            visited.set(i, true);
            a += 1;
        }
        proof {
            assert(width * (b + 1) == width * b + width) by (nonlinear_arith);
        }
        b += 1;
    }
}

/// The cell `(s, u, v)` of a direction, by x, y and z.
fn cell_by_axes(face: usize, s: usize, u: usize, v: usize) -> (cell: [u32; 3])
    requires
        face < 6,
        s < 34,
        u < 34,
        v < 34,
    ensures
        cell[normal_axis(face as int)] == s,
        cell[u_axis(face as int)] == u,
        cell[v_axis(face as int)] == v,
{
    if face % 3 == 0 {
        [s as u32, v as u32, u as u32]
    } else if face % 3 == 1 {
        [v as u32, s as u32, u as u32]
    } else {
        [u as u32, v as u32, s as u32]
    }
}

/// The quads that were there stay what the scan made of them when one more
/// is added.
proof fn lemma_greedy_kept(cubes: Seq<Cube>, face: int, quads: Seq<Quad>, quad: Quad, k: int)
    requires
        0 <= k < quads.len(),
        greedy_at(cubes, face, quads, k),
    ensures
        greedy_at(cubes, face, quads.push(quad), k),
{
    assert(quads.push(quad).take(k) =~= quads.take(k));
    assert(quads.push(quad)[k] == quads[k]);
}

/// One step of the greedy scan of a direction: if the face of the cell
/// `(s, u, v)` shows and no quad holds it, the quad that starts there is
/// found, flagged and added.
#[verifier::rlimit(40)]
fn scan_cell(
    cubes: &Vec<Cube>,
    visited: &mut Vec<bool>,
    quads: &mut Vec<Quad>,
    face: usize,
    s: usize,
    u: usize,
    v: usize,
)
    requires
        cubes_valid(cubes@),
        face < 6,
        inside(s as int, u as int, v as int),
        scan_state(
            cubes@,
            face as int,
            old(quads)@,
            old(visited)@,
            scan_order(s as int, u as int, v as int),
        ),
    ensures
        scan_state(
            cubes@,
            face as int,
            final(quads)@,
            final(visited)@,
            scan_order(s as int, u as int, v as int) + 1,
        ),
{
    let i = cell_at(face, s, u, v);
    proof {
        lemma_face_cell(face as int, s as int, u as int, v as int);
    }
    if !visited[i] && shows_face(cubes, face, i) {
        let key = (
            cubes[i].merge_value(),
            cubes[cell_beyond(face, i)].merge_value_facing_neighbour(),
        );
        let ghost before = quads@;
        let ghost flags = visited@;
        let (width, height) = find_quad(cubes, visited, face, s, u, v, key, Ghost(before));
        proof {
            assert forall|a: int, b: int| 0 <= a < width && 0 <= b < height implies !flags[#[trigger] face_cell(
                face as int,
                s as int,
                u + a,
                v + b,
            )] by {
                assert(joins(cubes@, face as int, before, key, s as int, u + a, v + b));
                lemma_face_cell(face as int, s as int, u + a, v + b);
            }
        }
        mark_quad(visited, face, s, u, v, width, height);
        let quad = Quad {
            minimum: cell_by_axes(face, s, u, v),
            width: width as u32,
            height: height as u32,
        };
        quads.push(quad);
        proof {
            let after = quads@;
            assert(after == before.push(quad));
            assert(after.take(before.len() as int) =~= before);
            assert(after.drop_last() =~= before);
            assert forall|i: int| 0 <= i < CHUNK_VOLUME implies #[trigger] visited@[i] == held(
                face as int,
                after,
                i,
            ) by {
                lemma_covered_push(
                    face as int,
                    before,
                    quad,
                    cell_along(normal_axis(face as int), i),
                    cell_along(u_axis(face as int), i),
                    cell_along(v_axis(face as int), i),
                );
                assert(flags[i] == held(face as int, before, i));
            }
            assert forall|k: int| 0 <= k < after.len() implies #[trigger] greedy_at(
                cubes@,
                face as int,
                after,
                k,
            ) by {
                if k < before.len() {
                    lemma_greedy_kept(cubes@, face as int, before, quad, k);
                }
            }
            assert forall|s2: int, u2: int, v2: int|
                inside(s2, u2, v2) && scan_order(s2, u2, v2) < scan_order(s as int, u as int, v as int)
                    + 1 && face_visible(
                    cubes@,
                    face as int,
                    #[trigger] face_cell(face as int, s2, u2, v2),
                ) implies covered(face as int, after, s2, u2, v2) by {
                lemma_covered_push(face as int, before, quad, s2, u2, v2);
            }
        }
    } else {
        proof {
            assert forall|s2: int, u2: int, v2: int|
                inside(s2, u2, v2) && scan_order(s2, u2, v2) < scan_order(s as int, u as int, v as int)
                    + 1 && face_visible(
                    cubes@,
                    face as int,
                    #[trigger] face_cell(face as int, s2, u2, v2),
                ) implies covered(face as int, quads@, s2, u2, v2) by {
                if scan_order(s2, u2, v2) == scan_order(s as int, u as int, v as int) {
                    assert(s2 == s && u2 == u && v2 == v);
                    assert(visited@[i as int] == held(face as int, quads@, i as int));
                }
            }
        }
    }
}

/// The quads of one direction: the greedy scan of the interior, slice by
/// slice, within a slice row by row upwards, within a row from left to
/// right. Each of the quads is the one that the scan makes next after those
/// before it, so the grid decides them all. Together they hold every face
/// that shows, each once: as many faces as show when each cell is looked at
/// by itself.
#[verifier::rlimit(40)]
pub fn greedy_quads_for_face(cubes: &Vec<Cube>, face: usize) -> (quads: Vec<Quad>)
    requires
        cubes_valid(cubes@),
        face < 6,
    ensures
        forall|k: int| 0 <= k < quads@.len() ==> #[trigger] greedy_at(cubes@, face as int, quads@, k),
        forall|s: int, u: int, v: int|
            inside(s, u, v) && face_visible(cubes@, face as int, #[trigger] face_cell(face as int, s, u, v))
                ==> covered(face as int, quads@, s, u, v),
        quads_area(quads@) == visible_faces(cubes@, face as int, CHUNK_VOLUME as nat),
        quads@.len() <= CHUNK_VOLUME,
{
    let mut visited: Vec<bool> = Vec::new();
    let mut n: usize = 0;
    while n < CHUNK_VOLUME
        invariant
            n <= CHUNK_VOLUME,
            visited@.len() == n,
            forall|i: int| 0 <= i < n ==> !visited@[i],
        decreases CHUNK_VOLUME - n,
    {
        visited.push(false);
        n += 1;
    }
    proof {
        lemma_count_set_none(visited@, CHUNK_VOLUME as nat);
    }
    let mut quads: Vec<Quad> = Vec::new();
    let mut s: usize = 1;
    while s < 33
        invariant
            1 <= s <= 33,
            cubes_valid(cubes@),
            face < 6,
            scan_state(cubes@, face as int, quads@, visited@, scan_order(s as int, 1, 1)),
        decreases 33 - s,
    {
        let mut v: usize = 1;
        while v < 33
            invariant
                1 <= s < 33,
                1 <= v <= 33,
                cubes_valid(cubes@),
                face < 6,
                scan_state(cubes@, face as int, quads@, visited@, scan_order(s as int, 1, v as int)),
            decreases 33 - v,
        {
            let mut u: usize = 1;
            while u < 33
                invariant
                    1 <= s < 33,
                    1 <= v < 33,
                    1 <= u <= 33,
                    cubes_valid(cubes@),
                    face < 6,
                    scan_state(
                        cubes@,
                        face as int,
                        quads@,
                        visited@,
                        scan_order(s as int, u as int, v as int),
                    ),
                decreases 33 - u,
            {
                scan_cell(cubes, &mut visited, &mut quads, face, s, u, v);
                u += 1;
            }
            proof {
                lemma_scan_state_on(
                    cubes@,
                    face as int,
                    quads@,
                    visited@,
                    scan_order(s as int, 33, v as int),
                    scan_order(s as int, 1, v + 1),
                );
            }
            v += 1;
        }
        proof {
            lemma_scan_state_on(
                cubes@,
                face as int,
                quads@,
                visited@,
                scan_order(s as int, 1, 33),
                scan_order(s + 1, 1, 1),
            );
        }
        s += 1;
    }
    proof {
        lemma_scan_done(cubes@, face as int, quads@, visited@);
        lemma_visible_faces_bound(cubes@, face as int, CHUNK_VOLUME as nat);
        lemma_quads_area_bound(cubes@, face as int, quads@, quads@.len() as int);
        assert(quads@.take(quads@.len() as int) =~= quads@);
    }
    quads
}

/// No more faces show than there are cells.
proof fn lemma_visible_faces_bound(cubes: Seq<Cube>, face: int, n: nat)
    ensures
        0 <= visible_faces(cubes, face, n) <= n,
    decreases n,
{
    if n > 0 {
        lemma_visible_faces_bound(cubes, face, (n - 1) as nat);
    }
}

/// Quads with an area hold at least as many faces as there are quads.
proof fn lemma_quads_area_bound(cubes: Seq<Cube>, face: int, quads: Seq<Quad>, n: int)
    requires
        0 <= n <= quads.len(),
        forall|k: int| 0 <= k < quads.len() ==> #[trigger] greedy_at(cubes, face, quads, k),
    ensures
        quads_area(quads.take(n)) >= n,
    decreases n,
{
    if n > 0 {
        lemma_quads_area_bound(cubes, face, quads, n - 1);
        assert(quads.take(n).drop_last() =~= quads.take(n - 1));
        assert(quads.take(n).last() == quads[n - 1]);
        assert(greedy_at(cubes, face, quads, n - 1));
        let w = quads[n - 1].width as int;
        let h = quads[n - 1].height as int;
        assert(w * h >= 1) by (nonlinear_arith)
            requires
                w >= 1,
                h >= 1,
        ;
    }
}

/// Where no flag is set, none is counted.
proof fn lemma_count_set_none(flags: Seq<bool>, n: nat)
    requires
        n <= flags.len(),
        forall|i: int| 0 <= i < n ==> !flags[i],
    ensures
        count_set(flags, n) == 0,
    decreases n,
{
    if n > 0 {
        lemma_count_set_none(flags, (n - 1) as nat);
    }
}

/// Between the end of a row and the start of the next lies no interior
/// cell, so the scan's state at the one is its state at the other.
proof fn lemma_scan_state_on(
    cubes: Seq<Cube>,
    face: int,
    quads: Seq<Quad>,
    visited: Seq<bool>,
    from: int,
    to: int,
)
    requires
        scan_state(cubes, face, quads, visited, from),
        forall|s: int, u: int, v: int| inside(s, u, v) && #[trigger] scan_order(s, u, v) < to ==> scan_order(s, u, v) < from,
    ensures
        scan_state(cubes, face, quads, visited, to),
{
    assert forall|s2: int, u2: int, v2: int|
        inside(s2, u2, v2) && scan_order(s2, u2, v2) < to && face_visible(
            cubes,
            face,
            #[trigger] face_cell(face, s2, u2, v2),
        ) implies covered(face, quads, s2, u2, v2) by {
        assert(scan_order(s2, u2, v2) < from);
    }
}

/// When the scan is through, the quads hold the faces that show and no
/// others, as many as a count cell by cell finds.
#[verifier::rlimit(40)]
proof fn lemma_scan_done(cubes: Seq<Cube>, face: int, quads: Seq<Quad>, visited: Seq<bool>)
    requires
        0 <= face < 6,
        scan_state(cubes, face, quads, visited, scan_order(33, 1, 1)),
    ensures
        forall|s: int, u: int, v: int|
            inside(s, u, v) && face_visible(cubes, face, #[trigger] face_cell(face, s, u, v)) ==> covered(
                face,
                quads,
                s,
                u,
                v,
            ),
        quads_area(quads) == visible_faces(cubes, face, CHUNK_VOLUME as nat),
{
    assert forall|i: int| 0 <= i < CHUNK_VOLUME implies #[trigger] visited[i] == (interior_cell(i)
        && face_visible(cubes, face, i)) by {
        lemma_cell_face(face, i);
        let s = cell_along(normal_axis(face), i);
        let u = cell_along(u_axis(face), i);
        let v = cell_along(v_axis(face), i);
        lemma_face_cell(face, s, u, v);
        assert(visited[i] == held(face, quads, i));
        if interior_cell(i) {
            if covered(face, quads, s, u, v) {
                let k = choose|k: int| 0 <= k < quads.len() && covers(face, #[trigger] quads[k], s, u, v);
                assert(greedy_at(cubes, face, quads, k));
                let quad = quads[k];
                let a = u - quad_u(face, quad);
                let b = v - quad_v(face, quad);
                assert(joins(
                    cubes,
                    face,
                    quads.take(k),
                    face_key(
                        cubes,
                        face,
                        face_cell(face, quad_s(face, quad), quad_u(face, quad), quad_v(face, quad)),
                    ),
                    quad_s(face, quad),
                    quad_u(face, quad) + a,
                    quad_v(face, quad) + b,
                ));
            } else if face_visible(cubes, face, i) {
                assert(face_visible(cubes, face, face_cell(face, s, u, v)));
                assert(scan_order(s, u, v) < scan_order(33, 1, 1));
            }
        }
    }
    lemma_count_set_is_visible(cubes, face, visited, CHUNK_VOLUME as nat);
}

/// Whether the two triangles of a quad of direction `face` run
/// counter-clockwise through its corners.
pub open spec fn counter_clockwise(face: int) -> bool {
    face == 0 || face == 4 || face == 5
}

/// The six indices of a quad whose first vertex is `start`.
pub open spec fn quad_indices(face: int, start: int) -> Seq<u32> {
    if counter_clockwise(face) {
        seq![
            start as u32,
            (start + 1) as u32,
            (start + 2) as u32,
            (start + 1) as u32,
            (start + 3) as u32,
            (start + 2) as u32,
        ]
    } else {
        seq![
            start as u32,
            (start + 2) as u32,
            (start + 1) as u32,
            (start + 1) as u32,
            (start + 2) as u32,
            (start + 3) as u32,
        ]
    }
}

/// Whether corner `c` of a quad lies at the far end of its width: corners 1
/// and 3 do.
pub open spec fn far_u(c: int) -> bool {
    c == 1 || c == 3
}

/// Whether corner `c` of a quad lies at the far end of its height: corners 2
/// and 3 do.
pub open spec fn far_v(c: int) -> bool {
    c == 2 || c == 3
}

/// The coordinate along `axis` of corner `c` of a quad of direction `face`,
/// on the lattice of cell corners: a face that looks up its axis lies one
/// further along it than the cell's lowest corner.
pub open spec fn corner_coordinate(face: int, quad: Quad, c: int, axis: int) -> int {
    quad.minimum[axis] + if axis == normal_axis(face) {
        if looks_up(face) {
            1int
        } else {
            0int
        }
    } else if axis == u_axis(face) {
        if far_u(c) {
            quad.width as int
        } else {
            0int
        }
    } else {
        if far_v(c) {
            quad.height as int
        } else {
            0int
        }
    }
}

/// Corner `c` of a quad of direction `face`.
pub open spec fn quad_corner(face: int, quad: Quad, c: int) -> [u32; 3] {
    [
        corner_coordinate(face, quad, c, 0) as u32,
        corner_coordinate(face, quad, c, 1) as u32,
        corner_coordinate(face, quad, c, 2) as u32,
    ]
}

/// The normal of the faces of direction `face`.
pub open spec fn face_normal(face: int) -> [i32; 3] {
    [
        if normal_axis(face) != 0 { 0i32 } else if looks_up(face) { 1i32 } else { -1i32 },
        if normal_axis(face) != 1 { 0i32 } else if looks_up(face) { 1i32 } else { -1i32 },
        if normal_axis(face) != 2 { 0i32 } else if looks_up(face) { 1i32 } else { -1i32 },
    ]
}

/// Whether the texture of the faces of direction `face` runs against their
/// u axis.
pub open spec fn flips_u(face: int) -> bool {
    face == 1 || face == 2 || face == 3
}

/// The texture coordinate of corner `c` of a quad of direction `face`, in
/// voxels: the texture repeats with each voxel, its top at the far end of
/// the quad's height.
pub open spec fn quad_uv(face: int, quad: Quad, c: int) -> [u32; 2] {
    [
        if far_u(c) != flips_u(face) { quad.width } else { 0u32 },
        if far_v(c) { 0u32 } else { quad.height },
    ]
}

/// How open a corner of a face is, from whether the two cells beside it and
/// the one diagonal to it, all in the layer beyond the face, are taken: 0
/// between two taken sides, else 3 less one for each taken cell.
pub open spec fn corner_openness(side_u: bool, side_v: bool, diagonal: bool) -> u8 {
    if side_u && side_v {
        0
    } else {
        (3 - if side_u { 1int } else { 0int } - if side_v { 1int } else { 0int } - if diagonal {
            1int
        } else {
            0int
        }) as u8
    }
}

/// The ambient occlusion of corner `c` of a quad of direction `face`: the
/// openness of that corner of the quad's corner cell.
pub open spec fn quad_ao(cubes: Seq<Cube>, face: int, quad: Quad, c: int) -> u8 {
    let s = quad_s(face, quad) + if looks_up(face) { 1int } else { -1int };
    let u = quad_u(face, quad) + if far_u(c) { quad.width - 1 } else { 0int };
    let v = quad_v(face, quad) + if far_v(c) { quad.height - 1 } else { 0int };
    let du = if far_u(c) { 1int } else { -1int };
    let dv = if far_v(c) { 1int } else { -1int };
    corner_openness(
        cubes[face_cell(face, s, u + du, v)].id != 0,
        cubes[face_cell(face, s, u, v + dv)].id != 0,
        cubes[face_cell(face, s, u + du, v + dv)].id != 0,
    )
}

/// The texture layer of a quad of direction `face`: that of the material of
/// its lowest cell for this direction.
pub open spec fn quad_layer(cubes: Seq<Cube>, face: int, quad: Quad) -> i32 {
    item_textures(
        cubes[face_cell(face, quad_s(face, quad), quad_u(face, quad), quad_v(face, quad))].id,
    )[face] as i32
}

/// The light of a quad of direction `face`: that of the cell beyond its
/// lowest cell.
pub open spec fn quad_light(cubes: Seq<Cube>, face: int, quad: Quad) -> u8 {
    cubes[beyond(
        face,
        face_cell(face, quad_s(face, quad), quad_u(face, quad), quad_v(face, quad)),
    )].natural_light_level
}

/// The buffers of a mesh, as sequences.
pub struct MeshView {
    pub indices: Seq<u32>,
    pub vertices: Seq<[u32; 3]>,
    pub normals: Seq<[i32; 3]>,
    pub uvs: Seq<[u32; 2]>,
    pub layers: Seq<i32>,
    pub light_levels: Seq<u8>,
    pub ambient_occlusion: Seq<u8>,
}

/// Buffers after one more quad of direction `face`: six indices, and for
/// each of its four corners a vertex, the normal, a texture coordinate, the
/// quad's layer, the quad's light, and the corner's ambient occlusion.
pub open spec fn with_quad(mesh: MeshView, cubes: Seq<Cube>, face: int, quad: Quad) -> MeshView {
    MeshView {
        indices: mesh.indices + quad_indices(face, mesh.vertices.len() as int),
        vertices: mesh.vertices + seq![
            quad_corner(face, quad, 0),
            quad_corner(face, quad, 1),
            quad_corner(face, quad, 2),
            quad_corner(face, quad, 3),
        ],
        normals: mesh.normals + seq![
            face_normal(face),
            face_normal(face),
            face_normal(face),
            face_normal(face),
        ],
        uvs: mesh.uvs + seq![
            quad_uv(face, quad, 0),
            quad_uv(face, quad, 1),
            quad_uv(face, quad, 2),
            quad_uv(face, quad, 3),
        ],
        layers: mesh.layers + seq![
            quad_layer(cubes, face, quad),
            quad_layer(cubes, face, quad),
            quad_layer(cubes, face, quad),
            quad_layer(cubes, face, quad),
        ],
        light_levels: mesh.light_levels + seq![
            quad_light(cubes, face, quad),
            quad_light(cubes, face, quad),
            quad_light(cubes, face, quad),
            quad_light(cubes, face, quad),
        ],
        ambient_occlusion: mesh.ambient_occlusion + seq![
            quad_ao(cubes, face, quad, 0),
            quad_ao(cubes, face, quad, 1),
            quad_ao(cubes, face, quad, 2),
            quad_ao(cubes, face, quad, 3),
        ],
    }
}

/// Buffers after the first `n` of `quads`, all of direction `face`.
pub open spec fn with_quads(mesh: MeshView, cubes: Seq<Cube>, face: int, quads: Seq<Quad>, n: nat) -> MeshView
    decreases n,
{
    if n == 0 {
        mesh
    } else {
        with_quad(with_quads(mesh, cubes, face, quads, (n - 1) as nat), cubes, face, quads[n - 1])
    }
}

/// The buffers of the quads of the first `n` directions, direction by
/// direction.
pub open spec fn with_groups(cubes: Seq<Cube>, groups: Seq<Vec<Quad>>, n: nat) -> MeshView
    decreases n,
{
    if n == 0 {
        no_buffers()
    } else {
        with_quads(
            with_groups(cubes, groups, (n - 1) as nat),
            cubes,
            n - 1,
            groups[n - 1]@,
            groups[n - 1]@.len(),
        )
    }
}

/// `quad_mesh_indices` of the face `face` of `block_mesh`'s
/// `RIGHT_HANDED_Y_UP_CONFIG`: from the index `start` of a quad's first
/// vertex, the indices of its two triangles, counter-clockwise for the faces
/// 0, 4 and 5 (start, +1, +2, +1, +3, +2) and clockwise for the others
/// (start, +2, +1, +1, +2, +3). Starts too high for `start + 3` are left out.
#[verifier::external_body]
fn face_quad_indices(face: usize, start: u32) -> (indices: [u32; 6])
    requires
        face < 6,
        start + 3 <= u32::MAX,
    ensures
        indices@ == quad_indices(face as int, start as int),
{
    RIGHT_HANDED_Y_UP_CONFIG.faces[face].quad_mesh_indices(start)
}

/// `quad_corners` of the face `face` of `block_mesh`'s
/// `RIGHT_HANDED_Y_UP_CONFIG`: the corners of a quad in the order lowest,
/// far along u, far along v, far along both; u is z for the faces that look
/// along x or y and x for the others, v is x for the faces that look along y
/// and y for the others, and the faces 3, 4 and 5 lie one further along
/// their normal than the quad's lowest cell. Quads outside the grid are left
/// out.
#[verifier::external_body]
fn face_quad_corners(face: usize, quad: &Quad) -> (corners: [[u32; 3]; 4])
    requires
        face < 6,
        quad_valid(face as int, *quad),
    ensures
        corners[0] == quad_corner(face as int, *quad, 0),
        corners[1] == quad_corner(face as int, *quad, 1),
        corners[2] == quad_corner(face as int, *quad, 2),
        corners[3] == quad_corner(face as int, *quad, 3),
{
    let corners = RIGHT_HANDED_Y_UP_CONFIG.faces[face].quad_corners(
        &UnorientedQuad { minimum: quad.minimum, width: quad.width, height: quad.height },
    );
    [corners[0].to_array(), corners[1].to_array(), corners[2].to_array(), corners[3].to_array()]
}

/// `signed_normal` of the face `face` of `block_mesh`'s
/// `RIGHT_HANDED_Y_UP_CONFIG`: the unit step along the face's axis, down it
/// for the faces 0, 1 and 2 and up it for the others.
#[verifier::external_body]
fn face_signed_normal(face: usize) -> (normal: [i32; 3])
    requires
        face < 6,
    ensures
        normal == face_normal(face as int),
{
    RIGHT_HANDED_Y_UP_CONFIG.faces[face].signed_normal().to_array()
}

/// The buffers of one chunk's mesh, four vertices and six indices for each
/// quad.
pub struct Mesh {
    /// The quads of each of the six directions.
    pub groups: Vec<Vec<Quad>>,
    pub indices: Vec<u32>,
    /// Corners on the grid's lattice.
    pub vertices: Vec<[u32; 3]>,
    pub normals: Vec<[i32; 3]>,
    /// Texture coordinates, in voxels.
    pub uvs: Vec<[u32; 2]>,
    pub layers: Vec<i32>,
    /// Light of each vertex, 0 to 255.
    pub light_levels: Vec<u8>,
    /// Openness of each vertex, 0 (closed in) to 3 (free).
    pub ambient_occlusion: Vec<u8>,
}

/// A mesh as what it holds: the quads of each direction, and the buffers.
pub struct MeshModel {
    pub groups: Seq<Seq<Quad>>,
    pub buffers: MeshView,
}

/// Buffers without a quad.
pub open spec fn no_buffers() -> MeshView {
    MeshView {
        indices: Seq::empty(),
        vertices: Seq::empty(),
        normals: Seq::empty(),
        uvs: Seq::empty(),
        layers: Seq::empty(),
        light_levels: Seq::empty(),
        ambient_occlusion: Seq::empty(),
    }
}

impl View for Mesh {
    type V = MeshModel;

    open spec fn view(&self) -> MeshModel {
        MeshModel { groups: self.groups@.map_values(|g: Vec<Quad>| g@), buffers: self.buffers() }
    }
}

impl Mesh {
    /// The buffers, as sequences.
    pub open spec fn buffers(&self) -> MeshView {
        MeshView {
            indices: self.indices@,
            vertices: self.vertices@,
            normals: self.normals@,
            uvs: self.uvs@,
            layers: self.layers@,
            light_levels: self.light_levels@,
            ambient_occlusion: self.ambient_occlusion@,
        }
    }

    /// A mesh without quads.
    pub fn new() -> (mesh: Self)
        ensures
            mesh@ == (MeshModel { groups: Seq::empty(), buffers: no_buffers() }),
            mesh.buffers() == no_buffers(),
            mesh.groups@.len() == 0,
            mesh.indices@.len() == 0,
            mesh.vertices@.len() == 0,
            mesh.normals@.len() == 0,
            mesh.uvs@.len() == 0,
            mesh.layers@.len() == 0,
            mesh.light_levels@.len() == 0,
            mesh.ambient_occlusion@.len() == 0,
    {
        let mesh = Mesh {
            groups: Vec::new(),
            indices: Vec::new(),
            vertices: Vec::new(),
            normals: Vec::new(),
            uvs: Vec::new(),
            layers: Vec::new(),
            light_levels: Vec::new(),
            ambient_occlusion: Vec::new(),
        };
        proof {
            let none = no_buffers();
            assert(mesh.groups@.map_values(|g: Vec<Quad>| g@) =~= Seq::<Seq<Quad>>::empty());
            assert(mesh.indices@ =~= none.indices);
            assert(mesh.vertices@ =~= none.vertices);
            assert(mesh.normals@ =~= none.normals);
            assert(mesh.uvs@ =~= none.uvs);
            assert(mesh.layers@ =~= none.layers);
            assert(mesh.light_levels@ =~= none.light_levels);
            assert(mesh.ambient_occlusion@ =~= none.ambient_occlusion);
        }
        mesh
    }
}

/// The texture coordinates of the four corners of a quad.
pub fn quad_uvs(face: usize, quad: &Quad) -> (uvs: [[u32; 2]; 4])
    requires
        face < 6,
    ensures
        uvs[0] == quad_uv(face as int, *quad, 0),
        uvs[1] == quad_uv(face as int, *quad, 1),
        uvs[2] == quad_uv(face as int, *quad, 2),
        uvs[3] == quad_uv(face as int, *quad, 3),
{
    let w = quad.width;
    let h = quad.height;
    if face == 1 || face == 2 || face == 3 {
        [[w, h], [0, h], [w, 0], [0, 0]]
    } else {
        [[0, h], [w, h], [0, 0], [w, 0]]
    }
}

fn openness(side_u: bool, side_v: bool, diagonal: bool) -> (ao: u8)
    ensures
        ao == corner_openness(side_u, side_v, diagonal),
{
    if side_u && side_v {
        0
    } else {
        let mut ao: u8 = 3;
        if side_u {
            ao -= 1;
        }
        if side_v {
            ao -= 1;
        }
        if diagonal {
            ao -= 1;
        }
        ao
    }
}

/// The slice, the lowest u and the lowest v of a quad.
fn quad_origin(face: usize, quad: &Quad) -> (at: (usize, usize, usize))
    requires
        face < 6,
    ensures
        at.0 == quad_s(face as int, *quad),
        at.1 == quad_u(face as int, *quad),
        at.2 == quad_v(face as int, *quad),
{
    if face % 3 == 0 {
        (quad.minimum[0] as usize, quad.minimum[2] as usize, quad.minimum[1] as usize)
    } else if face % 3 == 1 {
        (quad.minimum[1] as usize, quad.minimum[2] as usize, quad.minimum[0] as usize)
    } else {
        (quad.minimum[2] as usize, quad.minimum[0] as usize, quad.minimum[1] as usize)
    }
}

/// The ambient occlusion of one corner of a quad.
#[verifier::rlimit(40)]
fn corner_ao(cubes: &Vec<Cube>, face: usize, quad: &Quad, c: usize) -> (ao: u8)
    requires
        cubes_valid(cubes@),
        face < 6,
        c < 4,
        quad_valid(face as int, *quad),
    ensures
        ao == quad_ao(cubes@, face as int, *quad, c as int),
{
    let far_u = c == 1 || c == 3;
    let far_v = c == 2 || c == 3;
    let (qs, qu, qv) = quad_origin(face, quad);
    let s = if face >= 3 { qs + 1 } else { qs - 1 };
    let u = if far_u { qu + quad.width as usize - 1 } else { qu };
    let v = if far_v { qv + quad.height as usize - 1 } else { qv };
    let beside_u = if far_u { u + 1 } else { u - 1 };
    let beside_v = if far_v { v + 1 } else { v - 1 };
    openness(
        cubes[cell_at(face, s, beside_u, v)].id != 0,
        cubes[cell_at(face, s, u, beside_v)].id != 0,
        cubes[cell_at(face, s, beside_u, beside_v)].id != 0,
    )
}

/// Adds one quad to the buffers of a mesh.
#[verifier::rlimit(40)]
fn append_quad(mesh: &mut Mesh, cubes: &Vec<Cube>, face: usize, quad: &Quad)
    requires
        cubes_valid(cubes@),
        face < 6,
        quad_valid(face as int, *quad),
        old(mesh).vertices@.len() + 3 <= u32::MAX,
    ensures
        final(mesh).buffers() == with_quad(old(mesh).buffers(), cubes@, face as int, *quad),
        final(mesh).groups == old(mesh).groups,
{
    let indices = face_quad_indices(face, mesh.vertices.len() as u32);
    let corners = face_quad_corners(face, quad);
    let normal = face_signed_normal(face);
    let uvs = quad_uvs(face, quad);
    let (qs, qu, qv) = quad_origin(face, quad);
    let lowest = cell_at(face, qs, qu, qv);
    proof {
        lemma_face_cell(
            face as int,
            quad_s(face as int, *quad),
            quad_u(face as int, *quad),
            quad_v(face as int, *quad),
        );
    }
    let layer = item(cubes[lowest].id).textures[face] as i32;
    let light = cubes[cell_beyond(face, lowest)].natural_light_level;
    let ghost before = mesh.buffers();
    let mut j: usize = 0;
    while j < 6
        invariant
            j <= 6,
            mesh.indices@ == before.indices + indices@.take(j as int),
            mesh.vertices@ == before.vertices,
            mesh.normals@ == before.normals,
            mesh.uvs@ == before.uvs,
            mesh.layers@ == before.layers,
            mesh.light_levels@ == before.light_levels,
            mesh.ambient_occlusion@ == before.ambient_occlusion,
            mesh.groups == old(mesh).groups,
        decreases 6 - j,
    {
        mesh.indices.push(indices[j]);
        proof {
            assert(indices@.take(j + 1) =~= indices@.take(j as int).push(indices@[j as int]));
        }
        j += 1;
    }
    proof {
        assert(indices@.take(6) =~= indices@);
    }
    let ao0 = corner_ao(cubes, face, quad, 0);
    let ao1 = corner_ao(cubes, face, quad, 1);
    let ao2 = corner_ao(cubes, face, quad, 2);
    let ao3 = corner_ao(cubes, face, quad, 3);
    mesh.vertices.push(corners[0]);
    mesh.vertices.push(corners[1]);
    mesh.vertices.push(corners[2]);
    mesh.vertices.push(corners[3]);
    mesh.normals.push(normal);
    mesh.normals.push(normal);
    mesh.normals.push(normal);
    mesh.normals.push(normal);
    mesh.uvs.push(uvs[0]);
    mesh.uvs.push(uvs[1]);
    mesh.uvs.push(uvs[2]);
    mesh.uvs.push(uvs[3]);
    mesh.layers.push(layer);
    mesh.layers.push(layer);
    mesh.layers.push(layer);
    mesh.layers.push(layer);
    mesh.light_levels.push(light);
    mesh.light_levels.push(light);
    mesh.light_levels.push(light);
    mesh.light_levels.push(light);
    mesh.ambient_occlusion.push(ao0);
    mesh.ambient_occlusion.push(ao1);
    mesh.ambient_occlusion.push(ao2);
    mesh.ambient_occlusion.push(ao3);
    proof {
        let after = with_quad(before, cubes@, face as int, *quad);
        assert(mesh.indices@ =~= after.indices);
        assert(mesh.vertices@ =~= after.vertices);
        assert(mesh.normals@ =~= after.normals);
        assert(mesh.uvs@ =~= after.uvs);
        assert(mesh.layers@ =~= after.layers);
        assert(mesh.light_levels@ =~= after.light_levels);
        assert(mesh.ambient_occlusion@ =~= after.ambient_occlusion);
    }
}

/// Whether `quads` are the quads of direction `face` of a grid: each the
/// one that the greedy scan makes next, and together holding every face that
/// shows.
pub open spec fn greedy_quads(cubes: Seq<Cube>, face: int, quads: Seq<Quad>) -> bool {
    &&& forall|k: int| 0 <= k < quads.len() ==> #[trigger] greedy_at(cubes, face, quads, k)
    &&& forall|s: int, u: int, v: int|
        inside(s, u, v) && face_visible(cubes, face, #[trigger] face_cell(face, s, u, v)) ==> covered(
            face,
            quads,
            s,
            u,
            v,
        )
}

/// Two quads that the greedy scan can make next after the same quads are one
/// quad.
proof fn lemma_greedy_next(cubes: Seq<Cube>, face: int, one: Seq<Quad>, other: Seq<Quad>, k: int)
    requires
        0 <= face < 6,
        0 <= k < one.len(),
        k < other.len(),
        greedy_at(cubes, face, one, k),
        greedy_at(cubes, face, other, k),
        one.take(k) == other.take(k),
    ensures
        one[k] == other[k],
{
    broadcast use vstd::array::group_array_axioms;
    let a = one[k];
    let b = other[k];
    let earlier = one.take(k);
    let sa = quad_s(face, a);
    let ua = quad_u(face, a);
    let va = quad_v(face, a);
    let sb = quad_s(face, b);
    let ub = quad_u(face, b);
    let vb = quad_v(face, b);
    let key_a = face_key(cubes, face, face_cell(face, sa, ua, va));
    let key_b = face_key(cubes, face, face_cell(face, sb, ub, vb));
    assert(joins(cubes, face, earlier, key_a, sa, ua + 0, va + 0));
    assert(joins(cubes, face, earlier, key_b, sb, ub + 0, vb + 0));
    assert(inside(sa, ua, va) && inside(sb, ub, vb));
    if scan_order(sa, ua, va) < scan_order(sb, ub, vb) {
        assert(face_visible(cubes, face, face_cell(face, sa, ua, va)));
        assert(covered(face, earlier, sa, ua, va));
    }
    if scan_order(sb, ub, vb) < scan_order(sa, ua, va) {
        assert(face_visible(cubes, face, face_cell(face, sb, ub, vb)));
        assert(covered(face, earlier, sb, ub, vb));
    }
    assert(sa == sb && ua == ub && va == vb);
    if a.width < b.width {
        assert(joins(cubes, face, earlier, key_b, sb, ub + a.width, vb + 0));
    }
    if b.width < a.width {
        assert(joins(cubes, face, earlier, key_a, sa, ua + b.width, va + 0));
    }
    assert(a.width == b.width);
    if a.height < b.height {
        let at = choose|at: int|
            0 <= at < a.width && !#[trigger] joins(cubes, face, earlier, key_a, sa, ua + at, va + a.height);
        assert(joins(cubes, face, earlier, key_b, sb, ub + at, vb + a.height));
    }
    if b.height < a.height {
        let at = choose|at: int|
            0 <= at < b.width && !#[trigger] joins(cubes, face, earlier, key_b, sb, ub + at, vb + b.height);
        assert(joins(cubes, face, earlier, key_a, sa, ua + at, va + b.height));
    }
    assert(a.height == b.height);
    assert(a.minimum[0] == b.minimum[0] && a.minimum[1] == b.minimum[1] && a.minimum[2] == b.minimum[2]);
    assert(a.minimum =~= b.minimum);
}

/// Two sequences of greedy quads of one grid agree as far as both go.
proof fn lemma_greedy_prefix(cubes: Seq<Cube>, face: int, one: Seq<Quad>, other: Seq<Quad>, k: nat)
    requires
        0 <= face < 6,
        greedy_quads(cubes, face, one),
        greedy_quads(cubes, face, other),
        k <= one.len(),
        k <= other.len(),
    ensures
        one.take(k as int) == other.take(k as int),
    decreases k,
{
    if k == 0 {
        assert(one.take(0) =~= other.take(0));
    } else {
        lemma_greedy_prefix(cubes, face, one, other, (k - 1) as nat);
        assert(greedy_at(cubes, face, one, k - 1));
        assert(greedy_at(cubes, face, other, k - 1));
        lemma_greedy_next(cubes, face, one, other, k - 1);
        assert(one.take(k as int) =~= one.take(k - 1).push(one[k - 1]));
        assert(other.take(k as int) =~= other.take(k - 1).push(other[k - 1]));
    }
}

/// Greedy quads that hold every face that shows leave no room for one more.
proof fn lemma_greedy_no_more(cubes: Seq<Cube>, face: int, one: Seq<Quad>, other: Seq<Quad>)
    requires
        0 <= face < 6,
        greedy_quads(cubes, face, one),
        greedy_quads(cubes, face, other),
        one.len() <= other.len(),
        one == other.take(one.len() as int),
    ensures
        one.len() == other.len(),
{
    if one.len() < other.len() {
        let k = one.len() as int;
        let next = other[k];
        assert(greedy_at(cubes, face, other, k));
        let s = quad_s(face, next);
        let u = quad_u(face, next);
        let v = quad_v(face, next);
        let key = face_key(cubes, face, face_cell(face, s, u, v));
        assert(joins(cubes, face, other.take(k), key, s, u + 0, v + 0));
        assert(inside(s, u, v));
        assert(face_visible(cubes, face, face_cell(face, s, u, v)));
        assert(covered(face, one, s, u, v));
    }
}

/// The grid decides the quads: whatever is the sequence of greedy quads of a
/// direction of a grid is the same sequence.
pub proof fn lemma_greedy_quads_are_decided(cubes: Seq<Cube>, face: int, one: Seq<Quad>, other: Seq<Quad>)
    requires
        0 <= face < 6,
        greedy_quads(cubes, face, one),
        greedy_quads(cubes, face, other),
    ensures
        one == other,
{
    if one.len() <= other.len() {
        lemma_greedy_prefix(cubes, face, one, other, one.len());
        assert(one.take(one.len() as int) =~= one);
        lemma_greedy_no_more(cubes, face, one, other);
        assert(other.take(other.len() as int) =~= other);
    } else {
        lemma_greedy_prefix(cubes, face, one, other, other.len());
        assert(other.take(other.len() as int) =~= other);
        lemma_greedy_no_more(cubes, face, other, one);
    }
}

/// Whether `mesh` is the mesh of a grid: for each of the six directions the
/// quads of the greedy scan, and in the buffers one quad after the other,
/// direction by direction.
pub open spec fn mesh_of(cubes: Seq<Cube>, mesh: Mesh) -> bool {
    &&& mesh.groups@.len() == 6
    &&& forall|face: int| 0 <= face < 6 ==> greedy_quads(cubes, face, #[trigger] mesh.groups@[face]@)
    &&& forall|face: int|
        0 <= face < 6 ==> quads_area(#[trigger] mesh.groups@[face]@) == visible_faces(
            cubes,
            face,
            CHUNK_VOLUME as nat,
        )
    &&& mesh.buffers() == with_groups(cubes, mesh.groups@, 6)
}

/// The number of vertices grows by four with each quad.
proof fn lemma_with_quads_len(mesh: MeshView, cubes: Seq<Cube>, face: int, quads: Seq<Quad>, n: nat)
    ensures
        with_quads(mesh, cubes, face, quads, n).vertices.len() == mesh.vertices.len() + 4 * n,
    decreases n,
{
    if n > 0 {
        lemma_with_quads_len(mesh, cubes, face, quads, (n - 1) as nat);
    }
}

/// The buffers of the first directions do not depend on the quads of the
/// later ones.
proof fn lemma_with_groups_prefix(cubes: Seq<Cube>, a: Seq<Vec<Quad>>, b: Seq<Vec<Quad>>, n: nat)
    requires
        n <= a.len(),
        n <= b.len(),
        forall|i: int| 0 <= i < n ==> a[i] == b[i],
    ensures
        with_groups(cubes, a, n) == with_groups(cubes, b, n),
    decreases n,
{
    if n > 0 {
        lemma_with_groups_prefix(cubes, a, b, (n - 1) as nat);
    }
}

/// Adds the quads of one direction to a mesh that holds those of the
/// directions before it.
#[verifier::rlimit(40)]
fn append_group(mesh: &mut Mesh, cubes: &Vec<Cube>, face: usize, quads: Vec<Quad>)
    requires
        cubes_valid(cubes@),
        face < 6,
        old(mesh).groups@.len() == face,
        quads@.len() <= CHUNK_VOLUME,
        forall|j: int| 0 <= j < quads@.len() ==> #[trigger] greedy_at(cubes@, face as int, quads@, j),
        old(mesh).buffers() == with_groups(cubes@, old(mesh).groups@, face as nat),
        old(mesh).vertices@.len() <= 157216 * face,
    ensures
        final(mesh).groups@ == old(mesh).groups@.push(quads),
        final(mesh).buffers() == with_groups(cubes@, final(mesh).groups@, (face + 1) as nat),
        final(mesh).vertices@.len() <= 157216 * (face + 1),
{
    let ghost start = mesh.buffers();
    let ghost groups = mesh.groups@;
    let mut k: usize = 0;
    while k < quads.len()
        invariant
            k <= quads@.len(),
            face < 6,
            cubes_valid(cubes@),
            quads@.len() <= CHUNK_VOLUME,
            forall|j: int| 0 <= j < quads@.len() ==> #[trigger] greedy_at(cubes@, face as int, quads@, j),
            mesh.groups@ == groups,
            start.vertices.len() <= 157216 * face,
            mesh.buffers() == with_quads(start, cubes@, face as int, quads@, k as nat),
        decreases quads@.len() - k,
    {
        proof {
            lemma_with_quads_len(start, cubes@, face as int, quads@, k as nat);
            assert(greedy_at(cubes@, face as int, quads@, k as int));
        }
        append_quad(mesh, cubes, face, &quads[k]);
        k += 1;
    }
    proof {
        lemma_with_quads_len(start, cubes@, face as int, quads@, quads@.len());
    }
    mesh.groups.push(quads);
    proof {
        lemma_with_groups_prefix(cubes@, groups, mesh.groups@, face as nat);
    }
}

/// Meshes a grid: the greedy quads of each direction, and the buffers made
/// of them.
#[verifier::rlimit(40)]
pub fn greedy_mesh(cubes: &Vec<Cube>) -> (mesh: Mesh)
    requires
        cubes_valid(cubes@),
    ensures
        mesh_of(cubes@, mesh),
{
    let mut mesh = Mesh::new();
    let mut face: usize = 0;
    while face < 6
        invariant
            face <= 6,
            cubes_valid(cubes@),
            mesh.groups@.len() == face,
            forall|f: int| 0 <= f < face ==> greedy_quads(cubes@, f, #[trigger] mesh.groups@[f]@),
            forall|f: int|
                0 <= f < face ==> quads_area(#[trigger] mesh.groups@[f]@) == visible_faces(
                    cubes@,
                    f,
                    CHUNK_VOLUME as nat,
                ),
            mesh.buffers() == with_groups(cubes@, mesh.groups@, face as nat),
            mesh.vertices@.len() <= 157216 * face,
        decreases 6 - face,
    {
        let quads = greedy_quads_for_face(cubes, face);
        let ghost groups = mesh.groups@;
        append_group(&mut mesh, cubes, face, quads);
        proof {
            assert forall|f: int| 0 <= f < face + 1 implies greedy_quads(
                cubes@,
                f,
                #[trigger] mesh.groups@[f]@,
            ) by {
                if f < face {
                    assert(mesh.groups@[f] == groups[f]);
                }
            }
            assert forall|f: int| 0 <= f < face + 1 implies quads_area(#[trigger] mesh.groups@[f]@)
                == visible_faces(cubes@, f, CHUNK_VOLUME as nat) by {
                if f < face {
                    assert(mesh.groups@[f] == groups[f]);
                }
            }
        }
        face += 1;
    }
    mesh
}

} // verus!
