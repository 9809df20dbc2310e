//! Dense three-dimensional block storage, held in an `ndarray` array.

use vstd::prelude::*;
use crate::block::Block;
use ndarray::Array3;

verus! {

/// A dense three-dimensional array of blocks.
///
/// The array stands in a private field and is reached only through the
/// functions below, each of which states what it does to the cells and the
/// shape.
#[verifier::external_body]
pub struct BlockGrid {
    cells: Array3<Block>,
}

/// The cells of a three-dimensional array in logical row-major order: cell
/// `[i, j, k]` of an array of shape `(a, b, c)` stands at `i * b * c + j * c + k`.
pub uninterp spec fn grid_cells(g: BlockGrid) -> Seq<Block>;

/// The shape of a three-dimensional array.
pub uninterp spec fn grid_dims(g: BlockGrid) -> (usize, usize, usize);

pub open spec fn flat(dims: (usize, usize, usize), i: int, j: int, k: int) -> int {
    i * dims.1 * dims.2 + j * dims.2 + k
}

/// Relies on `ndarray::ArrayBase::from_elem`: an array of the given shape whose
/// every cell is a copy of `b`.
#[verifier::external_body]
pub(crate) fn grid_filled(d0: usize, d1: usize, d2: usize, b: Block) -> (r: BlockGrid)
    requires
        0 < d0,
        0 < d1,
        0 < d2,
        d0 * d1 * d2 <= isize::MAX,
    ensures
        grid_dims(r) == (d0, d1, d2),
        grid_cells(r) == Seq::new((d0 * d1 * d2) as nat, |_n: int| b),
{
    BlockGrid { cells: Array3::from_elem((d0, d1, d2), b) }
}

/// Relies on `ndarray::ArrayBase::dim`: the shape, whose product is the
/// number of cells.
#[verifier::external_body]
pub(crate) fn grid_shape(g: &BlockGrid) -> (r: (usize, usize, usize))
    ensures
        r == grid_dims(*g),
        grid_cells(*g).len() == r.0 * r.1 * r.2,
{
    g.cells.dim()
}

/// Relies on indexing of `ndarray::ArrayBase` by `[i, j, k]`: the cell at
/// that logical position.
#[verifier::external_body]
pub(crate) fn grid_get(g: &BlockGrid, i: usize, j: usize, k: usize) -> (r: Block)
    requires
        i < grid_dims(*g).0,
        j < grid_dims(*g).1,
        k < grid_dims(*g).2,
    ensures
        r == grid_cells(*g)[flat(grid_dims(*g), i as int, j as int, k as int)],
{
    g.cells[[i, j, k]]
}

/// Relies on mutable indexing of `ndarray::ArrayBase` by `[i, j, k]`: only
/// that cell changes, and the shape stays.
#[verifier::external_body]
pub(crate) fn grid_set(g: &mut BlockGrid, i: usize, j: usize, k: usize, b: Block)
    requires
        i < grid_dims(*old(g)).0,
        j < grid_dims(*old(g)).1,
        k < grid_dims(*old(g)).2,
    ensures
        grid_dims(*final(g)) == grid_dims(*old(g)),
        grid_cells(*final(g)) == grid_cells(*old(g)).update(
            flat(grid_dims(*old(g)), i as int, j as int, k as int),
            b,
        ),
{
    g.cells[[i, j, k]] = b;
}

/// Relies on `Clone` for `ndarray::ArrayBase` with owned storage: the same
/// shape and the same cells.
#[verifier::external_body]
pub(crate) fn grid_copy(g: &BlockGrid) -> (r: BlockGrid)
    ensures
        grid_dims(r) == grid_dims(*g),
        grid_cells(r) == grid_cells(*g),
{
    BlockGrid { cells: g.cells.clone() }
}

} // verus!
