//! The layout of one chunk's padded grid in memory: x runs fastest, then y,
//! then z.

use block_mesh::ndshape::ConstShape3u32;
use block_mesh::ndshape::ConstShape;
use vstd::prelude::*;

verus! {

/// Number of cells in a chunk's grid, halo included.
pub const CHUNK_VOLUME: usize = 39304;

/// Number of cells in one layer of the grid.
pub const CHUNK_LAYER: usize = 1156;

/// Where the cell `(x, y, z)` stands in the grid.
pub open spec fn cell_index(x: int, y: int, z: int) -> int {
    x + 34 * y + 1156 * z
}

/// Whether `(x, y, z)` names a cell of the grid.
pub open spec fn in_grid(x: int, y: int, z: int) -> bool {
    0 <= x < 34 && 0 <= y < 34 && 0 <= z < 34
}

/// Whether `(x, y, z)` names a cell of the interior.
pub open spec fn in_interior(x: int, y: int, z: int) -> bool {
    1 <= x <= 32 && 1 <= y <= 32 && 1 <= z <= 32
}

/// The x coordinate of the cell at `i`.
pub open spec fn cell_x(i: int) -> int {
    (i % 1156) % 34
}

/// The y coordinate of the cell at `i`.
pub open spec fn cell_y(i: int) -> int {
    (i % 1156) / 34
}

/// The z coordinate of the cell at `i`.
pub open spec fn cell_z(i: int) -> int {
    i / 1156
}

/// `ConstShape3u32::<34, 34, 34>::linearize` of `ndshape`, as `block_mesh`
/// hands it on: the first coordinate, plus 34 times the second, plus 1156
/// times the third. Coordinates outside the grid are left out, since the sum
/// is only then known not to overflow.
#[verifier::external_body]
fn shape_linearize(p: [u32; 3]) -> (i: u32)
    requires
        in_grid(p[0] as int, p[1] as int, p[2] as int),
    ensures
        i == cell_index(p[0] as int, p[1] as int, p[2] as int),
{
    ConstShape3u32::<34, 34, 34>::linearize(p)
}

/// `ConstShape3u32::<34, 34, 34>::delinearize` of `ndshape`: the third
/// coordinate is the index divided by 1156; of what is left, the second is
/// the quotient by 34 and the first the remainder.
#[verifier::external_body]
fn shape_delinearize(i: u32) -> (p: [u32; 3])
    ensures
        p[0] == cell_x(i as int),
        p[1] == cell_y(i as int),
        p[2] == cell_z(i as int),
{
    ConstShape3u32::<34, 34, 34>::delinearize(i)
}

/// The index of a cell of the grid.
pub fn linearize(x: u32, y: u32, z: u32) -> (i: usize)
    requires
        in_grid(x as int, y as int, z as int),
    ensures
        i == cell_index(x as int, y as int, z as int),
        i < CHUNK_VOLUME,
{
    shape_linearize([x, y, z]) as usize
}

/// The cell that stands at an index of the grid.
pub fn delinearize(i: usize) -> (p: [u32; 3])
    requires
        i < CHUNK_VOLUME,
    ensures
        p[0] == cell_x(i as int),
        p[1] == cell_y(i as int),
        p[2] == cell_z(i as int),
        in_grid(p[0] as int, p[1] as int, p[2] as int),
        cell_index(p[0] as int, p[1] as int, p[2] as int) == i,
{
    shape_delinearize(i as u32)
}

/// Index and coordinates determine each other.
pub proof fn lemma_cell_index_inverse(x: int, y: int, z: int)
    requires
        in_grid(x, y, z),
    ensures
        0 <= cell_index(x, y, z) < CHUNK_VOLUME,
        cell_x(cell_index(x, y, z)) == x,
        cell_y(cell_index(x, y, z)) == y,
        cell_z(cell_index(x, y, z)) == z,
{
}

/// Two cells of the grid with one index are one cell.
pub proof fn lemma_cell_index_injective(x1: int, y1: int, z1: int, x2: int, y2: int, z2: int)
    requires
        in_grid(x1, y1, z1),
        in_grid(x2, y2, z2),
        cell_index(x1, y1, z1) == cell_index(x2, y2, z2),
    ensures
        x1 == x2,
        y1 == y2,
        z1 == z2,
{
    lemma_cell_index_inverse(x1, y1, z1);
    lemma_cell_index_inverse(x2, y2, z2);
}

} // verus!
