//! Staircases, each placed on a floor cell drawn at random.

use grid::Grid;
use rand::rngs::StdRng;
use vstd::prelude::*;

use crate::hallways::same_shape;
use crate::random::random_range;
use crate::rooms::GenerationError;
use crate::tile::DungeonTile;
use crate::tilegrid::{grid_wf, grid_width, in_grid, rows_of, tile_of, tiles_cols, tiles_get, tiles_rows, tiles_set};

verus! {

/// How many random cells are tried for one staircase before generation
/// gives up for want of floor.
pub const STAIR_ATTEMPTS: usize = 10000;

/// The cell at `p` lies in the grid and holds `t`.
pub open spec fn holds_at(g: Grid<DungeonTile>, p: (i32, i32), t: DungeonTile) -> bool {
    in_grid(g, p.0 as int, p.1 as int) && tile_of(g, p.0 as int, p.1 as int) == t
}

/// No cell appears twice.
pub open spec fn distinct_cells(s: Seq<(i32, i32)>) -> bool {
    forall|i: int, j: int| 0 <= i < j < s.len() ==> s[i] != s[j]
}

/// The grid fits the coordinates of its cells in `i32`.
pub open spec fn i32_sized(g: Grid<DungeonTile>) -> bool {
    grid_width(g) <= i32::MAX && rows_of(g) <= i32::MAX
}

/// Some cell of `s` is (`x`, `y`).
pub open spec fn listed(s: Seq<(i32, i32)>, x: int, y: int) -> bool {
    exists|i: int| 0 <= i < s.len() && (#[trigger] s[i]).0 as int == x && s[i].1 as int == y
}

/// The cell (`x`, `y`) of the grid if it holds floor, else `None`.
pub fn floor_cell(g: &Grid<DungeonTile>, x: usize, y: usize) -> (r: Option<(i32, i32)>)
    requires
        i32_sized(*g),
    ensures
        r == (if in_grid(*g, x as int, y as int) && tile_of(*g, x as int, y as int) == DungeonTile::Floor {
            Some((x as i32, y as i32))
        } else {
            None::<(i32, i32)>
        }),
{
    match tiles_get(g, y, x) {
        Some(DungeonTile::Floor) => Some((x as i32, y as i32)),
        _ => None,
    }
}

/// Draws random cells until one holds floor, at most `STAIR_ATTEMPTS` times.
fn empty_square(g: &Grid<DungeonTile>, rng: &mut StdRng) -> (r: Option<(i32, i32)>)
    requires
        grid_wf(*g),
        i32_sized(*g),
    ensures
        r matches Some(p) ==> holds_at(*g, p, DungeonTile::Floor),
{
    let cols = tiles_cols(g);
    let rows = tiles_rows(g);
    if cols == 0 || rows == 0 {
        return None;
    }
    let mut attempt: usize = 0;
    while attempt < STAIR_ATTEMPTS
        invariant
            cols == grid_width(*g),
            rows == rows_of(*g),
            cols > 0 && rows > 0,
            i32_sized(*g),
        decreases STAIR_ATTEMPTS - attempt,
    {
        let x = random_range(rng, 0, cols);
        let y = random_range(rng, 0, rows);
        if let Some(p) = floor_cell(g, x, y) {
            return Some(p);
        }
        attempt = attempt + 1;
    }
    None
}

/// Turns `n` floor cells, each drawn at random, into `kind`, and lists them
/// in the order they were placed; `None` when no floor cell turned up.
fn place_stairs(g: &mut Grid<DungeonTile>, n: usize, kind: DungeonTile, rng: &mut StdRng) -> (r: Option<Vec<(i32, i32)>>)
    requires
        grid_wf(*old(g)),
        i32_sized(*old(g)),
        kind != DungeonTile::Floor,
    ensures
        same_shape(*old(g), *final(g)),
        forall|x: int, y: int|
            in_grid(*old(g), x, y) && #[trigger] tile_of(*final(g), x, y) != tile_of(*old(g), x, y) ==> tile_of(*old(g), x, y)
                == DungeonTile::Floor && tile_of(*final(g), x, y) == kind,
        n == 0 ==> r is Some,
        r matches Some(v) ==> v@.len() == n && distinct_cells(v@) && forall|i: int|
            0 <= i < v@.len() ==> holds_at(*final(g), #[trigger] v@[i], kind),
        r matches Some(v) ==> forall|i: int| 0 <= i < v@.len() ==> holds_at(*old(g), #[trigger] v@[i], DungeonTile::Floor),
        r matches Some(v) ==> forall|x: int, y: int|
            in_grid(*old(g), x, y) ==> (#[trigger] tile_of(*final(g), x, y) != tile_of(*old(g), x, y) <==> listed(v@, x, y)),
{
    let ghost g0 = *g;
    let mut v: Vec<(i32, i32)> = Vec::new();
    let mut i: usize = 0;
    while i < n
        invariant
            0 <= i <= n,
            g0 == *old(g),
            kind != DungeonTile::Floor,
            grid_wf(g0),
            i32_sized(g0),
            same_shape(g0, *g),
            forall|x: int, y: int|
                in_grid(g0, x, y) && #[trigger] tile_of(*g, x, y) != tile_of(g0, x, y) ==> tile_of(g0, x, y)
                    == DungeonTile::Floor && tile_of(*g, x, y) == kind,
            v@.len() == i,
            distinct_cells(v@),
            forall|k: int| 0 <= k < v@.len() ==> holds_at(*g, #[trigger] v@[k], kind),
            forall|k: int| 0 <= k < v@.len() ==> holds_at(g0, #[trigger] v@[k], DungeonTile::Floor),
            forall|x: int, y: int| in_grid(g0, x, y) ==> (#[trigger] tile_of(*g, x, y) != tile_of(g0, x, y) <==> listed(v@, x, y)),
        decreases n - i,
    {
        match empty_square(g, rng) {
            None => {
                return None;
            },
            Some(p) => {
                let ghost before = *g;
                let ghost vb = v@;
                assert(tile_of(g0, p.0 as int, p.1 as int) == DungeonTile::Floor);
                tiles_set(g, p.1 as usize, p.0 as usize, kind);
                v.push(p);
                assert forall|x: int, y: int| in_grid(g0, x, y) implies (#[trigger] tile_of(*g, x, y) != tile_of(g0, x, y)
                    <==> listed(v@, x, y)) by {
                    if x == p.0 && y == p.1 {
                        assert(v@[vb.len() as int] == p);
                    } else {
                        assert(tile_of(*g, x, y) == tile_of(before, x, y));
                        if listed(v@, x, y) {
                            let k = choose|k: int| 0 <= k < v@.len() && (#[trigger] v@[k]).0 as int == x && v@[k].1 as int == y;
                            assert(k < vb.len());
                            assert(vb[k] == v@[k]);
                        }
                        if listed(vb, x, y) {
                            let k = choose|k: int| 0 <= k < vb.len() && (#[trigger] vb[k]).0 as int == x && vb[k].1 as int == y;
                            assert(v@[k] == vb[k]);
                        }
                    }
                }
                assert forall|k: int| 0 <= k < v@.len() implies holds_at(g0, #[trigger] v@[k], DungeonTile::Floor) by {
                    if k < vb.len() {
                        assert(vb[k] == v@[k]);
                    }
                }
                assert forall|k: int| 0 <= k < v@.len() implies holds_at(*g, #[trigger] v@[k], kind) by {
                    if k < vb.len() {
                        assert(holds_at(before, vb[k], kind));
                        assert(vb[k] != p);
                    }
                }
                assert forall|a: int, b: int| 0 <= a < b < v@.len() implies v@[a] != v@[b] by {
                    if b == vb.len() {
                        assert(holds_at(before, vb[a], kind));
                    }
                }
                assert forall|x: int, y: int|
                    in_grid(g0, x, y) && #[trigger] tile_of(*g, x, y) != tile_of(g0, x, y) implies tile_of(g0, x, y)
                        == DungeonTile::Floor && tile_of(*g, x, y) == kind by {
                    if x != p.0 || y != p.1 {
                        assert(tile_of(*g, x, y) == tile_of(before, x, y));
                    } else if tile_of(before, x, y) == tile_of(g0, x, y) {
                        assert(tile_of(before, x, y) == DungeonTile::Floor);
                    }
                }
            },
        }
        i = i + 1;
    }
    Some(v)
}

/// Adds `n_upstairs` staircases up and `n_downstairs` down, each on a floor
/// cell drawn at random, and returns where they stand.
pub fn add_stairs(g: &mut Grid<DungeonTile>, n_upstairs: usize, n_downstairs: usize, rng: &mut StdRng) -> (r: Result<
    (Vec<(i32, i32)>, Vec<(i32, i32)>),
    GenerationError,
>)
    requires
        grid_wf(*old(g)),
        i32_sized(*old(g)),
    ensures
        same_shape(*old(g), *final(g)),
        forall|x: int, y: int|
            in_grid(*old(g), x, y) && tile_of(*old(g), x, y) != DungeonTile::Floor ==> #[trigger] tile_of(*final(g), x, y)
                == tile_of(*old(g), x, y),
        forall|x: int, y: int|
            in_grid(*old(g), x, y) && #[trigger] tile_of(*final(g), x, y) != tile_of(*old(g), x, y) ==> (tile_of(*final(g), x, y)
                == DungeonTile::Upstair || tile_of(*final(g), x, y) == DungeonTile::Downstair),
        match r {
            Ok((up, down)) => {
                &&& up@.len() == n_upstairs
                &&& down@.len() == n_downstairs
                &&& distinct_cells(up@)
                &&& distinct_cells(down@)
                &&& forall|i: int| 0 <= i < up@.len() ==> holds_at(*final(g), #[trigger] up@[i], DungeonTile::Upstair)
                &&& forall|i: int| 0 <= i < down@.len() ==> holds_at(*final(g), #[trigger] down@[i], DungeonTile::Downstair)
                &&& forall|i: int| 0 <= i < up@.len() ==> holds_at(*old(g), #[trigger] up@[i], DungeonTile::Floor)
                &&& forall|i: int| 0 <= i < down@.len() ==> holds_at(*old(g), #[trigger] down@[i], DungeonTile::Floor)
                &&& forall|x: int, y: int|
                    in_grid(*old(g), x, y) ==> (#[trigger] tile_of(*final(g), x, y) != tile_of(*old(g), x, y) <==> (listed(
                        up@,
                        x,
                        y,
                    ) || listed(down@, x, y)))
            },
            Err(e) => e == GenerationError::NoFloorForStairs && n_upstairs + n_downstairs > 0,
        },
{
    let ghost g0 = *g;
    let up = match place_stairs(g, n_upstairs, DungeonTile::Upstair, rng) {
        None => {
            return Err(GenerationError::NoFloorForStairs);
        },
        Some(up) => up,
    };
    let ghost g1 = *g;
    let down = match place_stairs(g, n_downstairs, DungeonTile::Downstair, rng) {
        None => {
            assert forall|x: int, y: int|
                in_grid(g0, x, y) && #[trigger] tile_of(*g, x, y) != tile_of(g0, x, y) implies (tile_of(*g, x, y)
                    == DungeonTile::Upstair || tile_of(*g, x, y) == DungeonTile::Downstair) by {
                if tile_of(g1, x, y) != tile_of(g0, x, y) {
                    assert(tile_of(g1, x, y) == DungeonTile::Upstair);
                }
            }
            return Err(GenerationError::NoFloorForStairs);
        },
        Some(down) => down,
    };
    assert forall|i: int| 0 <= i < up@.len() implies holds_at(*g, #[trigger] up@[i], DungeonTile::Upstair) by {
        assert(holds_at(g1, up@[i], DungeonTile::Upstair));
    }
    assert forall|i: int| 0 <= i < down@.len() implies holds_at(g0, #[trigger] down@[i], DungeonTile::Floor) by {
        assert(holds_at(g1, down@[i], DungeonTile::Floor));
    }
    assert forall|x: int, y: int| in_grid(g0, x, y) implies (#[trigger] tile_of(*g, x, y) != tile_of(g0, x, y) <==> (listed(
        up@,
        x,
        y,
    ) || listed(down@, x, y))) by {
        assert(tile_of(g1, x, y) != tile_of(g0, x, y) <==> listed(up@, x, y));
        assert(tile_of(*g, x, y) != tile_of(g1, x, y) <==> listed(down@, x, y));
    }
    assert forall|x: int, y: int|
        in_grid(g0, x, y) && #[trigger] tile_of(*g, x, y) != tile_of(g0, x, y) implies (tile_of(*g, x, y)
            == DungeonTile::Upstair || tile_of(*g, x, y) == DungeonTile::Downstair) by {
        if tile_of(g1, x, y) != tile_of(g0, x, y) {
            assert(tile_of(g1, x, y) == DungeonTile::Upstair);
        }
    }
    Ok((up, down))
}
} // verus!
