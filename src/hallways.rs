//! Hallways: least-cost routes between the centers of consecutive rooms,
//! cut through the stone, and the proof that they leave every open cell
//! of the level reachable from every other.

use grid::Grid;
use pathfinding::directed::astar::astar;
use rand::rngs::StdRng;
use vstd::prelude::*;

use crate::connectivity::{
    adjacent, connected, in_some_room, is_walk, lemma_box_linked, lemma_linked_kept,
    lemma_linked_refl, lemma_linked_sym, lemma_linked_trans, lemma_walk_prefix, linked, open_at,
    opens_kept,
};
use crate::random::random_range;
use crate::rooms::{room_in_grid, GenerationError, RoomBounds};
use crate::tile::DungeonTile;
use crate::tilegrid::{
    grid_weights, grid_wf, grid_width, in_grid, rows_of, tile_of, tiles_cols, tiles_get,
    tiles_rows, tiles_set, weights_from_vec, weights_get,
};

verus! {

/// The cost of a step into a cell that is already open, in thousandths of
/// the average cost of a step through stone. Below every stone weight, so
/// that hallways prefer to pass through existing rooms and hallways.
pub const ROOM_WEIGHT: u64 = 200;

/// The smallest stone weight: the average less the hallway randomness.
pub const STONE_WEIGHT_MIN: u64 = 400;

/// One more than the largest stone weight: the average plus the hallway
/// randomness.
pub const STONE_WEIGHT_END: u64 = 1600;

/// The largest width or height of a grid that hallways can be routed in,
/// so that path costs fit in a `u64`.
pub const ROUTE_SIZE_MAX: usize = 0x10000;

pub open spec fn as_cell(p: (usize, usize)) -> (int, int) {
    (p.0 as int, p.1 as int)
}

/// A route from `from` to `to`: each cell after the first lies in the grid
/// and shares a side with the cell before it.
pub open spec fn is_route(g: Grid<DungeonTile>, p: Seq<(usize, usize)>, from: (usize, usize), to: (usize, usize)) -> bool {
    &&& p.len() > 0
    &&& p[0] == from
    &&& p.last() == to
    &&& forall|i: int| 1 <= i < p.len() ==> in_grid(g, (#[trigger] p[i]).0 as int, p[i].1 as int)
    &&& forall|i: int| 1 <= i < p.len() ==> adjacent(as_cell(p[i - 1]), #[trigger] as_cell(p[i]))
}

/// The weight grid has a weight for every cell of the tile grid.
pub open spec fn weights_fit(tiles: Grid<DungeonTile>, weights: Grid<u64>) -> bool {
    &&& grid_weights(weights).len() == rows_of(tiles)
    &&& forall|r: int| 0 <= r < grid_weights(weights).len() ==> (#[trigger] grid_weights(weights)[r]).len() == grid_width(tiles)
}

/// Every weight lies between `ROOM_WEIGHT` and `STONE_WEIGHT_END`.
pub open spec fn weights_in_range(weights: Grid<u64>) -> bool {
    forall|a: int, b: int|
        0 <= a < grid_weights(weights).len() && 0 <= b < grid_weights(weights)[a].len() ==> ROOM_WEIGHT
            <= #[trigger] grid_weights(weights)[a][b] < STONE_WEIGHT_END
}

/// The cost of a step into cell `c`: its stone weight while it is wall,
/// `ROOM_WEIGHT` once it is open.
pub open spec fn cell_cost(tiles: Grid<DungeonTile>, weights: Grid<u64>, c: (usize, usize)) -> int {
    if tile_of(tiles, c.0 as int, c.1 as int) == DungeonTile::Wall {
        grid_weights(weights)[c.1 as int][c.0 as int] as int
    } else {
        ROOM_WEIGHT as int
    }
}

/// The cost of a route: the sum of the costs of the steps into each of its
/// cells after the first.
pub open spec fn route_cost(tiles: Grid<DungeonTile>, weights: Grid<u64>, p: Seq<(usize, usize)>) -> int
    decreases p.len(),
{
    if p.len() <= 1 {
        0
    } else {
        route_cost(tiles, weights, p.drop_last()) + cell_cost(tiles, weights, p.last())
    }
}

/// `p` costs no more than any other route from `from` to `to`.
pub open spec fn least_cost(
    tiles: Grid<DungeonTile>,
    weights: Grid<u64>,
    p: Seq<(usize, usize)>,
    from: (usize, usize),
    to: (usize, usize),
) -> bool {
    forall|q: Seq<(usize, usize)>| #[trigger] is_route(tiles, q, from, to) ==> route_cost(tiles, weights, p) <= route_cost(tiles, weights, q)
}

/// The cost of a step into cell (`x`, `y`); `None` outside the grids.
fn step_cost(tiles: &Grid<DungeonTile>, weights: &Grid<u64>, x: usize, y: usize) -> (r: Option<u64>)
    ensures
        r is Some ==> in_grid(*tiles, x as int, y as int),
        weights_fit(*tiles, *weights) && in_grid(*tiles, x as int, y as int) ==> r is Some,
        r matches Some(c) ==> (weights_fit(*tiles, *weights) ==> c == cell_cost(*tiles, *weights, (x, y))),
{
    match tiles_get(tiles, y, x) {
        None => None,
        Some(DungeonTile::Wall) => weights_get(weights, y, x),
        Some(_) => Some(ROOM_WEIGHT),
    }
}

/// The cells one step from `node` (west, east, north, south) that lie in the
/// grid, each with the cost of stepping into it. When every cell has a
/// weight, every neighbour in the grid is offered, at its `cell_cost`.
pub fn route_steps(tiles: &Grid<DungeonTile>, weights: &Grid<u64>, node: (usize, usize)) -> (r: Vec<((usize, usize), u64)>)
    ensures
        forall|i: int|
            0 <= i < r@.len() ==> in_grid(*tiles, (#[trigger] r@[i]).0.0 as int, r@[i].0.1 as int)
                && adjacent(as_cell(node), as_cell(r@[i].0)),
        weights_fit(*tiles, *weights) ==> forall|i: int|
            0 <= i < r@.len() ==> (#[trigger] r@[i]).1 == cell_cost(*tiles, *weights, r@[i].0),
        weights_fit(*tiles, *weights) ==> forall|c: (usize, usize)|
            in_grid(*tiles, c.0 as int, c.1 as int) && #[trigger] adjacent(as_cell(node), as_cell(c)) ==> exists|i: int|
                0 <= i < r@.len() && r@[i].0 == c,
{
    let (x, y) = node;
    let mut r: Vec<((usize, usize), u64)> = Vec::new();
    let ghost iw = 0int;
    if x > 0 {
        if let Some(c) = step_cost(tiles, weights, x - 1, y) {
            r.push(((x - 1, y), c));
        }
    }
    let ghost ie = r@.len() as int;
    if x < usize::MAX {
        if let Some(c) = step_cost(tiles, weights, x + 1, y) {
            r.push(((x + 1, y), c));
        }
    }
    let ghost in_ = r@.len() as int;
    if y > 0 {
        if let Some(c) = step_cost(tiles, weights, x, y - 1) {
            r.push(((x, y - 1), c));
        }
    }
    let ghost is = r@.len() as int;
    if y < usize::MAX {
        if let Some(c) = step_cost(tiles, weights, x, y + 1) {
            r.push(((x, y + 1), c));
        }
    }
    proof {
        if weights_fit(*tiles, *weights) {
            assert forall|c: (usize, usize)|
                in_grid(*tiles, c.0 as int, c.1 as int) && #[trigger] adjacent(as_cell(node), as_cell(c)) implies exists|i: int|
                    0 <= i < r@.len() && r@[i].0 == c by {
                if c.0 + 1 == x && c.1 == y {
                    assert(r@[iw].0 == c);
                } else if c.0 == x + 1 && c.1 == y {
                    assert(r@[ie].0 == c);
                } else if c.0 == x && c.1 + 1 == y {
                    assert(r@[in_].0 == c);
                } else {
                    assert(r@[is].0 == c);
                }
            }
        }
    }
    r
}
/// A lower bound on the cost of a route from `node` to `to`: every step
/// costs at least `ROOM_WEIGHT`, and a route takes at least as many steps
/// as the cells' distance along the rows plus along the columns.
pub fn route_estimate(node: (usize, usize), to: (usize, usize)) -> (r: u64)
    ensures
        r as int == ({
            let d = (crate::visibility::abs(node.0 - to.0) + crate::visibility::abs(node.1 - to.1)) * ROOM_WEIGHT;
            if d > u64::MAX { u64::MAX as int } else { d }
        }),
{
    let dx: u128 = if node.0 < to.0 { (to.0 - node.0) as u128 } else { (node.0 - to.0) as u128 };
    let dy: u128 = if node.1 < to.1 { (to.1 - node.1) as u128 } else { (node.1 - to.1) as u128 };
    assert((dx + dy) * 200 <= 0x4_0000_0000_0000_0000u128 * 200) by (nonlinear_arith)
        requires dx + dy <= 0x4_0000_0000_0000_0000u128;
    let d: u128 = (dx + dy) * (ROOM_WEIGHT as u128);
    if d > u64::MAX as u128 {
        u64::MAX
    } else {
        d as u64
    }
}

/// Whether the search has reached its goal cell.
pub fn at_goal(node: (usize, usize), to: (usize, usize)) -> (r: bool)
    ensures
        r == (node == to),
{
    node.0 == to.0 && node.1 == to.1
}

/// Relies on `pathfinding::directed::astar::astar`, which returns a
/// shortest path from the start to a node that passes the goal test, and
/// `None` only when there is no path. Here the goal test is equality with
/// `to` and the successors of a node are `route_steps`: neighbours in the
/// grid, each one sharing a side with it, and all of them, at their
/// `cell_cost`, when every cell has a weight. The estimate, `ROOM_WEIGHT`
/// per row and column apart, never exceeds the remaining cost, since no step
/// costs less. Both ends lie in the grid and steps cost below
/// `STONE_WEIGHT_END`, so on a grid of at most `ROUTE_SIZE_MAX` cells a side
/// no sum of costs or estimate overflows.
#[verifier::external_body]
fn find_route(tiles: &Grid<DungeonTile>, weights: &Grid<u64>, from: (usize, usize), to: (usize, usize)) -> (r: Option<Vec<(usize, usize)>>)
    requires
        rows_of(*tiles) <= ROUTE_SIZE_MAX,
        grid_width(*tiles) <= ROUTE_SIZE_MAX,
        weights_in_range(*weights),
        in_grid(*tiles, from.0 as int, from.1 as int),
        in_grid(*tiles, to.0 as int, to.1 as int),
    ensures
        r matches Some(p) ==> is_route(*tiles, p@, from, to),
        in_grid(*tiles, from.0 as int, from.1 as int) && in_grid(*tiles, to.0 as int, to.1 as int) && weights_fit(
            *tiles,
            *weights,
        ) ==> r is Some,
        r matches Some(p) ==> (weights_fit(*tiles, *weights) ==> least_cost(*tiles, *weights, p@, from, to)),
{
    astar(&from, |n| route_steps(tiles, weights, *n), |n| route_estimate(*n, to), |n| at_goal(*n, to))
        .map(|(path, _cost)| path)
}

/// Some cell of `path` is `c`.
pub open spec fn on_path(path: Seq<(usize, usize)>, c: (int, int)) -> bool {
    exists|i: int| 0 <= i < path.len() && as_cell(#[trigger] path[i]) == c
}

/// `g2` is `g1` with the wall cells of `path` turned into hallway.
pub open spec fn carved(g1: Grid<DungeonTile>, g2: Grid<DungeonTile>, path: Seq<(usize, usize)>) -> bool {
    forall|x: int, y: int|
        in_grid(g1, x, y) ==> #[trigger] tile_of(g2, x, y) == (if on_path(path, (x, y)) && tile_of(g1, x, y)
            == DungeonTile::Wall {
            DungeonTile::Hallway
        } else {
            tile_of(g1, x, y)
        })
}

/// `g2` has the rows and columns of `g1`.
pub open spec fn same_shape(g1: Grid<DungeonTile>, g2: Grid<DungeonTile>) -> bool {
    &&& grid_wf(g2)
    &&& rows_of(g2) == rows_of(g1)
    &&& grid_width(g2) == grid_width(g1)
}

/// Turns every wall cell of `path` into hallway; open cells stay as they are.
fn carve_path(g: &mut Grid<DungeonTile>, path: &Vec<(usize, usize)>)
    requires
        grid_wf(*old(g)),
        forall|i: int| 0 <= i < path@.len() ==> in_grid(*old(g), (#[trigger] path@[i]).0 as int, path@[i].1 as int),
    ensures
        same_shape(*old(g), *final(g)),
        forall|x: int, y: int|
            in_grid(*old(g), x, y) && tile_of(*old(g), x, y) != DungeonTile::Wall ==> #[trigger] tile_of(*final(g), x, y)
                == tile_of(*old(g), x, y),
        forall|x: int, y: int|
            in_grid(*old(g), x, y) && #[trigger] tile_of(*final(g), x, y) != tile_of(*old(g), x, y) ==> exists|i: int|
                0 <= i < path@.len() && as_cell(#[trigger] path@[i]) == (x, y),
        forall|i: int| 0 <= i < path@.len() ==> open_at(*final(g), as_cell(#[trigger] path@[i])),
        carved(*old(g), *final(g), path@),
{
    let ghost g0 = *g;
    let mut i: usize = 0;
    while i < path.len()
        invariant
            0 <= i <= path@.len(),
            grid_wf(g0),
            same_shape(g0, *g),
            forall|k: int| 0 <= k < path@.len() ==> in_grid(g0, (#[trigger] path@[k]).0 as int, path@[k].1 as int),
            forall|x: int, y: int|
                in_grid(g0, x, y) && tile_of(g0, x, y) != DungeonTile::Wall ==> #[trigger] tile_of(*g, x, y) == tile_of(g0, x, y),
            forall|x: int, y: int|
                in_grid(g0, x, y) && #[trigger] tile_of(*g, x, y) != tile_of(g0, x, y) ==> exists|k: int|
                    0 <= k < i && as_cell(#[trigger] path@[k]) == (x, y),
            forall|k: int| 0 <= k < i ==> open_at(*g, as_cell(#[trigger] path@[k])),
            forall|x: int, y: int|
                in_grid(g0, x, y) && #[trigger] tile_of(*g, x, y) != tile_of(g0, x, y) ==> tile_of(*g, x, y)
                    == DungeonTile::Hallway,
        decreases path@.len() - i,
    {
        let (x, y) = path[i];
        assert(in_grid(g0, path@[i as int].0 as int, path@[i as int].1 as int));
        let ghost before = *g;
        if let Some(DungeonTile::Wall) = tiles_get(g, y, x) {
            tiles_set(g, y, x, DungeonTile::Hallway);
        }
        assert(open_at(*g, as_cell(path@[i as int])));
        assert forall|x2: int, y2: int|
            in_grid(g0, x2, y2) && #[trigger] tile_of(*g, x2, y2) != tile_of(g0, x2, y2) implies exists|k: int|
                0 <= k < i + 1 && as_cell(#[trigger] path@[k]) == (x2, y2) by {
            if tile_of(before, x2, y2) != tile_of(g0, x2, y2) {
                let k = choose|k: int| 0 <= k < i && as_cell(#[trigger] path@[k]) == (x2, y2);
                assert(0 <= k < i + 1 && as_cell(path@[k]) == (x2, y2));
            } else {
                assert(as_cell(path@[i as int]) == (x2, y2));
            }
        }
        assert forall|k: int| 0 <= k < i + 1 implies open_at(*g, as_cell(#[trigger] path@[k])) by {
            if k < i {
                assert(open_at(before, as_cell(path@[k])));
            }
        }
        i = i + 1;
    }
    assert forall|x: int, y: int| in_grid(g0, x, y) implies #[trigger] tile_of(*g, x, y) == (if on_path(path@, (x, y))
        && tile_of(g0, x, y) == DungeonTile::Wall {
        DungeonTile::Hallway
    } else {
        tile_of(g0, x, y)
    }) by {
        if on_path(path@, (x, y)) && tile_of(g0, x, y) == DungeonTile::Wall {
            let k = choose|k: int| 0 <= k < path@.len() && as_cell(#[trigger] path@[k]) == (x, y);
            assert(open_at(*g, as_cell(path@[k])));
        }
    }
}

/// Joins cell `from` to cell `to` by a route of least cost, and turns the
/// wall cells on it into hallway; returns the route.
pub fn join_rooms(g: &mut Grid<DungeonTile>, weights: &Grid<u64>, from: (usize, usize), to: (usize, usize)) -> (path: Vec<(usize, usize)>)
    requires
        grid_wf(*old(g)),
        rows_of(*old(g)) <= ROUTE_SIZE_MAX,
        grid_width(*old(g)) <= ROUTE_SIZE_MAX,
        in_grid(*old(g), from.0 as int, from.1 as int),
        in_grid(*old(g), to.0 as int, to.1 as int),
        weights_fit(*old(g), *weights),
        weights_in_range(*weights),
    ensures
        is_route(*old(g), path@, from, to),
        least_cost(*old(g), *weights, path@, from, to),
        same_shape(*old(g), *final(g)),
        carved(*old(g), *final(g), path@),
{
    match find_route(g, weights, from, to) {
        Some(path) => {
            assert forall|i: int| 0 <= i < path@.len() implies in_grid(*g, (#[trigger] path@[i]).0 as int, path@[i].1 as int) by {
            }
            carve_path(g, &path);
            path
        },
        None => Vec::new(),
    }
}

/// A room of positive size that lies within the grid.
pub open spec fn room_ok(b: RoomBounds, g: Grid<DungeonTile>) -> bool {
    b.size.0 > 0 && b.size.1 > 0 && room_in_grid(b, g)
}

/// Random stone weights for a grid of `rows` rows of `cols` cells.
fn stone_weights(rows: usize, cols: usize, rng: &mut StdRng) -> (r: Grid<u64>)
    requires
        cols > 0,
        rows * cols <= usize::MAX,
    ensures
        grid_weights(r).len() == rows,
        forall|a: int| 0 <= a < grid_weights(r).len() ==> (#[trigger] grid_weights(r)[a]).len() == cols,
        forall|a: int, b: int|
            0 <= a < grid_weights(r).len() && 0 <= b < grid_weights(r)[a].len() ==> STONE_WEIGHT_MIN
                <= #[trigger] grid_weights(r)[a][b] < STONE_WEIGHT_END,
{
    let total = rows * cols;
    let mut v: Vec<u64> = Vec::new();
    let mut i: usize = 0;
    while i < total
        invariant
            0 <= i <= total,
            v@.len() == i,
            forall|k: int| 0 <= k < v@.len() ==> STONE_WEIGHT_MIN <= #[trigger] v@[k] < STONE_WEIGHT_END,
        decreases total - i,
    {
        let w = random_range(rng, STONE_WEIGHT_MIN as usize, STONE_WEIGHT_END as usize);
        v.push(w as u64);
        i = i + 1;
    }
    assert((total as nat) % (cols as nat) == 0 && (total as nat) / (cols as nat) == rows) by (nonlinear_arith)
        requires total == rows * cols, cols > 0;
    let ghost vs = v@;
    let g = weights_from_vec(v, cols);
    assert forall|a: int, b: int|
        0 <= a < grid_weights(g).len() && 0 <= b < grid_weights(g)[a].len() implies STONE_WEIGHT_MIN
            <= #[trigger] grid_weights(g)[a][b] < STONE_WEIGHT_END by {
        assert(a * cols + b < total) by (nonlinear_arith)
            requires 0 <= a < rows, 0 <= b < cols, total == rows * cols;
        assert(grid_weights(g)[a][b] == vs[a * cols + b]);
    }
    g
}

/// What holds of the grid while hallways join the rooms one after another,
/// once room `k` is joined to room 0.
pub open spec fn joined_up_to(g: Grid<DungeonTile>, rooms: Seq<RoomBounds>, k: int) -> bool {
    &&& forall|j: int, c: (int, int)| 0 <= j < rooms.len() && #[trigger] rooms[j].contains(c) ==> open_at(g, c)
    &&& forall|c: (int, int)| #[trigger] open_at(g, c) ==> in_some_room(rooms, k + 1, c) || linked(g, c, rooms[0].center_of())
    &&& linked(g, rooms[k].center_of(), rooms[0].center_of())
}

/// An opened route links its first cell to its last.
proof fn lemma_path_links(g: Grid<DungeonTile>, path: Seq<(usize, usize)>)
    requires
        path.len() > 0,
        forall|i: int| 0 <= i < path.len() - 1 ==> adjacent(as_cell(#[trigger] path[i]), as_cell(path[i + 1])),
        forall|i: int| 0 <= i < path.len() ==> open_at(g, as_cell(#[trigger] path[i])),
    ensures
        linked(g, as_cell(path[0]), as_cell(path.last())),
{
    let walk = Seq::new(path.len(), |i: int| as_cell(path[i]));
    assert forall|i: int| 0 <= i < walk.len() implies open_at(g, #[trigger] walk[i]) by {
        assert(open_at(g, as_cell(path[i])));
    }
    assert forall|i: int| 0 <= i < walk.len() - 1 implies adjacent(#[trigger] walk[i], walk[i + 1]) by {
        assert(adjacent(as_cell(path[i]), as_cell(path[i + 1])));
    }
    assert(is_walk(g, walk));
    lemma_walk_prefix(g, walk, walk.len() - 1);
}

/// A route from the center of room `k` to that of room `k + 1`, opened up,
/// joins room `k + 1` to room 0.
proof fn lemma_route_joins(
    g: Grid<DungeonTile>,
    g2: Grid<DungeonTile>,
    rooms: Seq<RoomBounds>,
    k: int,
    path: Seq<(usize, usize)>,
)
    requires
        0 <= k < rooms.len() - 1,
        forall|j: int| 0 <= j < rooms.len() ==> room_ok(#[trigger] rooms[j], g),
        joined_up_to(g, rooms, k),
        opens_kept(g, g2),
        path.len() > 0,
        as_cell(path[0]) == rooms[k].center_of(),
        as_cell(path.last()) == rooms[k + 1].center_of(),
        forall|i: int| 0 <= i < path.len() - 1 ==> adjacent(as_cell(#[trigger] path[i]), as_cell(path[i + 1])),
        forall|i: int| 0 <= i < path.len() ==> open_at(g2, as_cell(#[trigger] path[i])),
        forall|c: (int, int)|
            #[trigger] open_at(g2, c) ==> open_at(g, c) || exists|i: int| 0 <= i < path.len() && as_cell(#[trigger] path[i]) == c,
    ensures
        joined_up_to(g2, rooms, k + 1),
{
    let c0 = rooms[0].center_of();
    let walk = Seq::new(path.len(), |i: int| as_cell(path[i]));
    assert forall|i: int| 0 <= i < walk.len() implies open_at(g2, #[trigger] walk[i]) by {
        assert(open_at(g2, as_cell(path[i])));
    }
    assert forall|i: int| 0 <= i < walk.len() - 1 implies adjacent(#[trigger] walk[i], walk[i + 1]) by {
        assert(adjacent(as_cell(path[i]), as_cell(path[i + 1])));
    }
    assert(is_walk(g2, walk));
    lemma_linked_kept(g, g2, rooms[k].center_of(), c0);
    assert forall|i: int| 0 <= i < walk.len() implies linked(g2, #[trigger] walk[i], c0) by {
        lemma_walk_prefix(g2, walk, i);
        lemma_linked_sym(g2, walk[0], walk[i]);
        lemma_linked_trans(g2, walk[i], walk[0], c0);
    }
    let ck1 = rooms[k + 1].center_of();
    assert(walk[walk.len() - 1] == ck1);
    assert(linked(g2, ck1, c0));
    let r1 = rooms[k + 1];
    assert(room_ok(r1, g));
    assert forall|j: int, c: (int, int)| 0 <= j < rooms.len() && #[trigger] rooms[j].contains(c) implies open_at(g2, c) by {
        assert(open_at(g, c));
    }
    assert forall|c: (int, int)| #[trigger] open_at(g2, c) implies in_some_room(rooms, k + 2, c) || linked(g2, c, c0) by {
        if open_at(g, c) {
            if in_some_room(rooms, k + 1, c) {
                let j = choose|j: int| k + 1 <= j < rooms.len() && (#[trigger] rooms[j]).contains(c);
                if j == k + 1 {
                    assert forall|c2: (int, int)|
                        r1.ul_corner.0 <= c2.0 < r1.x_end() && r1.ul_corner.1 <= c2.1 < r1.y_end() implies #[trigger] open_at(g2, c2) by {
                        assert(rooms[k + 1].contains(c2));
                    }
                    lemma_box_linked(g2, r1.ul_corner.0 as int, r1.ul_corner.1 as int, r1.x_end(), r1.y_end(), c, ck1);
                    lemma_linked_trans(g2, c, ck1, c0);
                } else {
                    assert(in_some_room(rooms, k + 2, c));
                }
            } else {
                lemma_linked_kept(g, g2, c, c0);
            }
        } else {
            let i = choose|i: int| 0 <= i < path.len() && as_cell(#[trigger] path[i]) == c;
            assert(walk[i] == c);
        }
    }
}

/// The room's corner and size fit in `usize` and its center lies in the grid.
pub open spec fn center_in_grid(b: RoomBounds, g: Grid<DungeonTile>) -> bool {
    b.fits(0) && in_grid(g, b.center_of().0, b.center_of().1)
}

/// The grid holds the rooms and nothing else open: every room has a
/// positive size and lies in the grid, its cells are open, and every open
/// cell lies in some room.
pub open spec fn only_rooms_open(g: Grid<DungeonTile>, rooms: Seq<RoomBounds>) -> bool {
    &&& forall|j: int| 0 <= j < rooms.len() ==> room_ok(#[trigger] rooms[j], g)
    &&& forall|j: int, c: (int, int)| 0 <= j < rooms.len() && #[trigger] rooms[j].contains(c) ==> open_at(g, c)
    &&& forall|c: (int, int)| #[trigger] open_at(g, c) ==> in_some_room(rooms, 0, c)
}

/// Joins each room to the next with `join_rooms`, from center to center,
/// over stone weights drawn at random. Only wall cells change, into
/// hallway, and the centers of consecutive rooms end up linked. When the
/// grid held the rooms and nothing else open, afterwards every open cell
/// can be reached from every other.
pub(crate) fn add_hallways(g: &mut Grid<DungeonTile>, rooms: &Vec<RoomBounds>, rng: &mut StdRng)
    requires
        grid_wf(*old(g)),
        rows_of(*old(g)) <= ROUTE_SIZE_MAX,
        grid_width(*old(g)) <= ROUTE_SIZE_MAX,
        rows_of(*old(g)) * grid_width(*old(g)) <= usize::MAX,
        forall|j: int| 0 <= j < rooms@.len() ==> center_in_grid(#[trigger] rooms@[j], *old(g)),
    ensures
        same_shape(*old(g), *final(g)),
        forall|x: int, y: int|
            in_grid(*old(g), x, y) && #[trigger] tile_of(*final(g), x, y) != tile_of(*old(g), x, y) ==> tile_of(*old(g), x, y)
                == DungeonTile::Wall && tile_of(*final(g), x, y) == DungeonTile::Hallway,
        rooms@.len() <= 1 ==> *final(g) == *old(g),
        forall|k: int|
            0 <= k < rooms@.len() - 1 ==> linked(*final(g), (#[trigger] rooms@[k]).center_of(), rooms@[k + 1].center_of()),
        only_rooms_open(*old(g), rooms@) ==> connected(*final(g)),
{
    let ghost g0 = *g;
    let ghost shaped = only_rooms_open(g0, rooms@);
    let n = rooms.len();
    if n == 0 {
        assert forall|a: (int, int), b: (int, int)| shaped && open_at(*g, a) && open_at(*g, b) implies #[trigger] linked(*g, a, b) by {
            assert(in_some_room(rooms@, 0, a));
        }
        return;
    }
    let rows = tiles_rows(g);
    let cols = tiles_cols(g);
    assert(center_in_grid(rooms@[0], g0));
    let weights = stone_weights(rows, cols, rng);
    let ghost c0 = rooms@[0].center_of();
    proof {
        if shaped {
            let r0 = rooms@[0];
            assert(room_ok(r0, g0));
            assert forall|c2: (int, int)|
                r0.ul_corner.0 <= c2.0 < r0.x_end() && r0.ul_corner.1 <= c2.1 < r0.y_end() implies #[trigger] open_at(g0, c2) by {
                assert(rooms@[0].contains(c2));
            }
            assert forall|c: (int, int)| #[trigger] open_at(g0, c) implies in_some_room(rooms@, 1, c) || linked(g0, c, c0) by {
                let j = choose|j: int| 0 <= j < rooms@.len() && (#[trigger] rooms@[j]).contains(c);
                if j == 0 {
                    lemma_box_linked(g0, r0.ul_corner.0 as int, r0.ul_corner.1 as int, r0.x_end(), r0.y_end(), c, c0);
                } else {
                    assert(in_some_room(rooms@, 1, c));
                }
            }
            assert(rooms@[0].contains(c0));
            lemma_linked_refl(g0, c0);
        }
    }
    let mut k: usize = 0;
    while k + 1 < n
        invariant
            n == rooms@.len(),
            0 <= k < n,
            g0 == *old(g),
            shaped == only_rooms_open(g0, rooms@),
            grid_wf(g0),
            same_shape(g0, *g),
            k == 0 ==> *g == g0,
            rows_of(g0) <= ROUTE_SIZE_MAX,
            grid_width(g0) <= ROUTE_SIZE_MAX,
            rows == rows_of(g0),
            cols == grid_width(g0),
            forall|j: int| 0 <= j < rooms@.len() ==> center_in_grid(#[trigger] rooms@[j], g0),
            grid_weights(weights).len() == rows,
            forall|a: int| 0 <= a < grid_weights(weights).len() ==> (#[trigger] grid_weights(weights)[a]).len() == cols,
            weights_in_range(weights),
            forall|x: int, y: int|
                in_grid(g0, x, y) && #[trigger] tile_of(*g, x, y) != tile_of(g0, x, y) ==> tile_of(g0, x, y)
                    == DungeonTile::Wall && tile_of(*g, x, y) == DungeonTile::Hallway,
            forall|j: int| 0 <= j < k ==> linked(*g, (#[trigger] rooms@[j]).center_of(), rooms@[j + 1].center_of()),
            shaped ==> joined_up_to(*g, rooms@, k as int),
        decreases n - k,
    {
        let from = rooms[k].center();
        let to = rooms[k + 1].center();
        assert(center_in_grid(rooms@[k as int], g0));
        assert(center_in_grid(rooms@[k + 1], g0));
        let ghost before = *g;
        let path = join_rooms(g, &weights, from, to);
        proof {
            assert forall|x: int, y: int|
                in_grid(g0, x, y) && #[trigger] tile_of(*g, x, y) != tile_of(g0, x, y) implies tile_of(g0, x, y)
                    == DungeonTile::Wall && tile_of(*g, x, y) == DungeonTile::Hallway by {
                assert(tile_of(*g, x, y) == tile_of(before, x, y) || tile_of(before, x, y) == DungeonTile::Wall);
            }
            assert forall|c: (int, int)| #[trigger] open_at(before, c) implies open_at(*g, c) by {
                assert(tile_of(*g, c.0, c.1) == tile_of(before, c.0, c.1));
            }
            assert forall|c: (int, int)| #[trigger] open_at(*g, c) implies open_at(before, c) || exists|i: int|
                0 <= i < path@.len() && as_cell(#[trigger] path@[i]) == c by {
                if !open_at(before, c) {
                    assert(tile_of(*g, c.0, c.1) != tile_of(before, c.0, c.1));
                }
            }
            assert forall|i: int| 0 <= i < path@.len() implies open_at(*g, as_cell(#[trigger] path@[i])) by {
                let c = as_cell(path@[i]);
                assert(in_grid(before, c.0, c.1));
                assert(on_path(path@, c));
                assert(tile_of(*g, c.0, c.1) != DungeonTile::Wall);
            }
            assert forall|i: int| 0 <= i < path@.len() - 1 implies adjacent(as_cell(#[trigger] path@[i]), as_cell(path@[i + 1])) by {
                assert(adjacent(as_cell(path@[(i + 1) - 1]), as_cell(path@[i + 1])));
            }
            lemma_path_links(*g, path@);
            assert forall|j: int| 0 <= j < k + 1 implies linked(*g, (#[trigger] rooms@[j]).center_of(), rooms@[j + 1].center_of()) by {
                if j < k {
                    lemma_linked_kept(before, *g, rooms@[j].center_of(), rooms@[j + 1].center_of());
                }
            }
            if shaped {
                assert(open_at(before, as_cell(path@[0]))) by {
                    assert(rooms@[k as int].contains(rooms@[k as int].center_of()));
                }
                lemma_route_joins(before, *g, rooms@, k as int, path@);
            }
        }
        k = k + 1;
    }
    proof {
        if shaped {
            assert forall|a: (int, int), b: (int, int)| open_at(*g, a) && open_at(*g, b) implies #[trigger] linked(*g, a, b) by {
                assert(!in_some_room(rooms@, k + 1, a));
                assert(!in_some_room(rooms@, k + 1, b));
                lemma_linked_sym(*g, b, c0);
                lemma_linked_trans(*g, a, c0, b);
            }
        }
    }
}

} // verus!
