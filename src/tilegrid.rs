//! The tile grid and stone-weight grid of a level, held in `grid::Grid`.

use grid::Grid;
use vstd::prelude::*;

use crate::tile::DungeonTile;

verus! {

#[verifier::external_type_specification]
#[verifier::external_body]
#[verifier::reject_recursive_types(T)]
pub struct ExGrid<T>(Grid<T>);

/// The rows of a tile grid, top to bottom, each a sequence of cells left to right.
pub uninterp spec fn grid_tiles(g: Grid<DungeonTile>) -> Seq<Seq<DungeonTile>>;

/// The number of columns of a tile grid.
pub uninterp spec fn grid_width(g: Grid<DungeonTile>) -> nat;

/// The rows of a weight grid, top to bottom.
pub uninterp spec fn grid_weights(g: Grid<u64>) -> Seq<Seq<u64>>;

/// Every row of the grid has `grid_width` cells.
pub open spec fn grid_wf(g: Grid<DungeonTile>) -> bool {
    &&& grid_width(g) <= usize::MAX
    &&& grid_tiles(g).len() <= usize::MAX
    &&& forall|r: int| 0 <= r < grid_tiles(g).len() ==> #[trigger] grid_tiles(g)[r].len() == grid_width(g)
}

pub open spec fn rows_of(g: Grid<DungeonTile>) -> nat {
    grid_tiles(g).len()
}

/// The tile in column `x` of row `y`.
pub open spec fn tile_of(g: Grid<DungeonTile>, x: int, y: int) -> DungeonTile {
    grid_tiles(g)[y][x]
}

pub open spec fn in_grid(g: Grid<DungeonTile>, x: int, y: int) -> bool {
    0 <= x < grid_width(g) && 0 <= y < rows_of(g)
}

/// Relies on `grid::Grid::init`: `rows` rows of `cols` copies of `t`, or the
/// empty grid (no rows, no columns) when either count is zero.
#[verifier::external_body]
pub(crate) fn tiles_init(rows: usize, cols: usize, t: DungeonTile) -> (g: Grid<DungeonTile>)
    requires
        rows * cols <= usize::MAX,
    ensures
        grid_wf(g),
        rows == 0 || cols == 0 ==> grid_tiles(g).len() == 0 && grid_width(g) == 0,
        rows > 0 && cols > 0 ==> grid_width(g) == cols && grid_tiles(g) == Seq::new(
            rows as nat,
            |r: int| Seq::new(cols as nat, |c: int| t),
        ),
{
    Grid::init(rows, cols, t)
}

/// Relies on `grid::Grid::rows`: the number of rows.
#[verifier::external_body]
pub(crate) fn tiles_rows(g: &Grid<DungeonTile>) -> (r: usize)
    ensures
        r == grid_tiles(*g).len(),
{
    g.rows()
}

/// Relies on `grid::Grid::cols`: the number of columns.
#[verifier::external_body]
pub(crate) fn tiles_cols(g: &Grid<DungeonTile>) -> (r: usize)
    ensures
        r == grid_width(*g),
{
    g.cols()
}

/// Relies on `grid::Grid::get`: the cell at (`row`, `col`), or `None` out of bounds.
#[verifier::external_body]
pub(crate) fn tiles_get(g: &Grid<DungeonTile>, row: usize, col: usize) -> (r: Option<DungeonTile>)
    ensures
        r == (if row < grid_tiles(*g).len() && col < grid_width(*g) {
            Some(grid_tiles(*g)[row as int][col as int])
        } else {
            None::<DungeonTile>
        }),
{
    g.get(row, col).copied()
}

/// Relies on `grid::Grid`'s `IndexMut<(usize, usize)>`: writes one cell and
/// leaves the others; it panics out of bounds.
#[verifier::external_body]
pub(crate) fn tiles_set(g: &mut Grid<DungeonTile>, row: usize, col: usize, t: DungeonTile)
    requires
        row < grid_tiles(*old(g)).len(),
        col < grid_width(*old(g)),
    ensures
        grid_width(*final(g)) == grid_width(*old(g)),
        grid_tiles(*final(g)) == grid_tiles(*old(g)).update(
            row as int,
            grid_tiles(*old(g))[row as int].update(col as int, t),
        ),
{
    g[(row, col)] = t;
}

/// Relies on `grid::Grid::from_vec`: the cells of `v` cut into rows of
/// `cols`; it panics unless `v`'s length is a multiple of `cols`.
#[verifier::external_body]
pub(crate) fn weights_from_vec(v: Vec<u64>, cols: usize) -> (g: Grid<u64>)
    requires
        cols > 0,
        v@.len() % (cols as nat) == 0,
    ensures
        grid_weights(g).len() == v@.len() / (cols as nat),
        forall|r: int| 0 <= r < grid_weights(g).len() ==> #[trigger] grid_weights(g)[r].len() == cols,
        forall|r: int, c: int|
            0 <= r < grid_weights(g).len() && 0 <= c < cols ==> #[trigger] grid_weights(g)[r][c] == v@[r * cols + c],
{
    Grid::from_vec(v, cols)
}

/// Relies on `grid::Grid::get`: the weight at (`row`, `col`), or `None` out of bounds.
#[verifier::external_body]
pub(crate) fn weights_get(g: &Grid<u64>, row: usize, col: usize) -> (r: Option<u64>)
    ensures
        r == (if row < grid_weights(*g).len() && col < grid_weights(*g)[row as int].len() {
            Some(grid_weights(*g)[row as int][col as int])
        } else {
            None::<u64>
        }),
{
    g.get(row, col).copied()
}

} // verus!
