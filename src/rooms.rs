//! Generator for levels made of rooms joined by hallways.
//!
//! A number of attempts place rectangular rooms of random sizes and
//! positions; only those far enough from the rooms already kept survive.
//! A weighted path search then leads from each room to the one kept after
//! it, cutting hallways through the stone. The weights favour travel
//! through existing rooms and hallways, so that rooms connect to their
//! neighbours, and carry some randomness against long straight hallways.

use grid::Grid;
use rand::rngs::StdRng;
use vstd::prelude::*;

use crate::connectivity::{connected, in_some_room, lemma_linked_kept, linked, open_at};
use crate::hallways::{add_hallways, room_ok, same_shape, ROUTE_SIZE_MAX};
use crate::level::{DungeonLevel, LEVEL_HEIGHT, LEVEL_WIDTH};
use crate::random::random_range;
use crate::stairs::{add_stairs, distinct_cells, holds_at, listed};
use crate::tile::DungeonTile;
use crate::tilegrid::{grid_tiles, grid_wf, grid_width, in_grid, rows_of, tile_of, tiles_init, tiles_set};

verus! {

/// The smallest width or height of a room.
pub const ROOM_SIZE_MIN: usize = 4;

/// One more than the largest width or height of a room.
pub const ROOM_SIZE_END: usize = 8;

/// The minimum distance between the interiors of two rooms. At least 1,
/// so that walls appear between them.
pub const ROOM_MIN_DISTANCE: usize = 4;

/// The minimum distance between the interior of a room and the edge of
/// the level. At least 1, so that every room has walls.
pub const ROOM_MARGIN: usize = 2;

/// The smallest width and height of a region in which every room drawn
/// fits with its margins, so that the first attempt always keeps its room.
pub const ROOMS_REGION_MIN: usize = 12;

/// The bounding box of a room: its upper-left corner and its size, as
/// (x, y) pairs.
#[derive(Debug, Clone, Copy)]
pub struct RoomBounds {
    pub ul_corner: (usize, usize),
    pub size: (usize, usize),
}

/// Whether the spans `a0..a1` and `b0..b1` overlap: the one that starts
/// later starts before the other ends.
pub open spec fn spans_overlap(a0: int, a1: int, b0: int, b1: int) -> bool {
    if a0 > b0 {
        a0 < b1
    } else {
        b0 < a1
    }
}

impl RoomBounds {
    /// The column just right of the room.
    pub open spec fn x_end(self) -> int {
        self.ul_corner.0 + self.size.0
    }

    /// The row just below the room.
    pub open spec fn y_end(self) -> int {
        self.ul_corner.1 + self.size.1
    }

    /// The room's end fits in `usize`, even after growing by `dist`.
    pub open spec fn fits(self, dist: int) -> bool {
        self.x_end() + dist <= usize::MAX && self.y_end() + dist <= usize::MAX
    }

    pub open spec fn contains(self, c: (int, int)) -> bool {
        &&& self.ul_corner.0 <= c.0 < self.x_end()
        &&& self.ul_corner.1 <= c.1 < self.y_end()
    }

    pub open spec fn overlaps(self, other: RoomBounds) -> bool {
        &&& spans_overlap(self.ul_corner.0 as int, self.x_end(), other.ul_corner.0 as int, other.x_end())
        &&& spans_overlap(self.ul_corner.1 as int, self.y_end(), other.ul_corner.1 as int, other.y_end())
    }

    /// Both rooms grown by `dist` to the right and downward overlap.
    pub open spec fn is_near(self, other: RoomBounds, dist: int) -> bool {
        &&& spans_overlap(
            self.ul_corner.0 as int,
            self.x_end() + dist,
            other.ul_corner.0 as int,
            other.x_end() + dist,
        )
        &&& spans_overlap(
            self.ul_corner.1 as int,
            self.y_end() + dist,
            other.ul_corner.1 as int,
            other.y_end() + dist,
        )
    }

    /// The cells of the room, row by row, each row left to right.
    pub open spec fn cell_rows(self) -> Seq<Seq<(usize, usize)>> {
        Seq::new(
            self.size.1 as nat,
            |j: int|
                Seq::new(
                    self.size.0 as nat,
                    |i: int| ((self.ul_corner.0 + i) as usize, (self.ul_corner.1 + j) as usize),
                ),
        )
    }

    pub open spec fn center_of(self) -> (int, int) {
        (self.ul_corner.0 + self.size.0 / 2, self.ul_corner.1 + self.size.1 / 2)
    }

    /// The cells contained within the room, row by row from the top, each
    /// row from the left.
    pub fn tiles(&self) -> (r: Vec<(usize, usize)>)
        requires
            self.fits(0),
        ensures
            r@ == self.cell_rows().flatten(),
    {
        let (x_min, y_min) = self.ul_corner;
        let (x_max, y_max) = (x_min + self.size.0, y_min + self.size.1);
        let mut r: Vec<(usize, usize)> = Vec::new();
        let mut y: usize = y_min;
        while y < y_max
            invariant
                y_min <= y <= y_max,
                x_max == x_min + self.size.0,
                y_max == y_min + self.size.1,
                (x_min, y_min) == self.ul_corner,
                r@ == self.cell_rows().take(y - y_min).flatten(),
            decreases y_max - y,
        {
            let ghost before = r@;
            let mut x: usize = x_min;
            while x < x_max
                invariant
                    x_min <= x <= x_max,
                    y_min <= y < y_max,
                    x_max == x_min + self.size.0,
                    y_max == y_min + self.size.1,
                    (x_min, y_min) == self.ul_corner,
                    r@ == before + self.cell_rows()[y - y_min].take(x - x_min),
                decreases x_max - x,
            {
                r.push((x, y));
                assert(self.cell_rows()[y - y_min].take(x + 1 - x_min) =~= self.cell_rows()[y
                    - y_min].take(x - x_min).push((x, y)));
                x = x + 1;
            }
            proof {
                let rows = self.cell_rows();
                assert(rows.take(y + 1 - y_min) =~= rows.take(y - y_min).push(rows[y - y_min]));
                rows.take(y - y_min).lemma_flatten_push(rows[y - y_min]);
                assert(rows[y - y_min].take(x - x_min) =~= rows[y - y_min]);
            }
            y = y + 1;
        }
        assert(self.cell_rows().take(y - y_min) =~= self.cell_rows());
        r
    }

    /// Whether the two rooms overlap: each of their spans of columns and
    /// of rows overlaps the other room's.
    pub fn intersects(&self, other: &Self) -> (r: bool)
        requires
            self.fits(0),
            other.fits(0),
        ensures
            r == self.overlaps(*other),
    {
        range_overlapping(
            self.ul_corner.0,
            self.ul_corner.0 + self.size.0,
            other.ul_corner.0,
            other.ul_corner.0 + other.size.0,
        ) && range_overlapping(
            self.ul_corner.1,
            self.ul_corner.1 + self.size.1,
            other.ul_corner.1,
            other.ul_corner.1 + other.size.1,
        )
    }

    /// Whether the two rooms lie within distance `dist` of one another, or
    /// overlap.
    pub fn near(&self, other: &Self, dist: usize) -> (r: bool)
        requires
            self.fits(dist as int),
            other.fits(dist as int),
        ensures
            r == self.is_near(*other, dist as int),
    {
        RoomBounds { size: (self.size.0 + dist, self.size.1 + dist), ..*self }.intersects(
            &RoomBounds { size: (other.size.0 + dist, other.size.1 + dist), ..*other },
        )
    }

    /// The approximate center of the room, rounded toward the lower right.
    pub fn center(&self) -> (r: (usize, usize))
        requires
            self.fits(0),
        ensures
            r.0 == self.center_of().0,
            r.1 == self.center_of().1,
    {
        (self.ul_corner.0 + self.size.0 / 2, self.ul_corner.1 + self.size.1 / 2)
    }
}

/// A room of an allowed size that keeps `ROOM_MARGIN` cells clear of every
/// edge of a region of `region` (width, height).
pub open spec fn placed(b: RoomBounds, region: (usize, usize)) -> bool {
    &&& ROOM_SIZE_MIN <= b.size.0 < ROOM_SIZE_END
    &&& ROOM_SIZE_MIN <= b.size.1 < ROOM_SIZE_END
    &&& ROOM_MARGIN <= b.ul_corner.0
    &&& ROOM_MARGIN <= b.ul_corner.1
    &&& b.x_end() + ROOM_MARGIN < region.0
    &&& b.y_end() + ROOM_MARGIN < region.1
}

/// No two of the rooms are near one another.
pub open spec fn spread(rooms: Seq<RoomBounds>) -> bool {
    forall|i: int, j: int|
        0 <= i < rooms.len() && 0 <= j < rooms.len() && i != j ==> !(#[trigger] rooms[i]).is_near(
            #[trigger] rooms[j],
            ROOM_MIN_DISTANCE as int,
        )
}

/// Whether `cand` is far from every room of `kept`.
pub fn far_from_all(kept: &Vec<RoomBounds>, cand: &RoomBounds) -> (r: bool)
    requires
        cand.fits(ROOM_MIN_DISTANCE as int),
        forall|k: int| 0 <= k < kept@.len() ==> (#[trigger] kept@[k]).fits(ROOM_MIN_DISTANCE as int),
    ensures
        r == forall|k: int| 0 <= k < kept@.len() ==> !(#[trigger] kept@[k]).is_near(*cand, ROOM_MIN_DISTANCE as int),
{
    let mut i: usize = 0;
    while i < kept.len()
        invariant
            0 <= i <= kept@.len(),
            cand.fits(ROOM_MIN_DISTANCE as int),
            forall|k: int| 0 <= k < kept@.len() ==> (#[trigger] kept@[k]).fits(ROOM_MIN_DISTANCE as int),
            forall|k: int| 0 <= k < i ==> !(#[trigger] kept@[k]).is_near(*cand, ROOM_MIN_DISTANCE as int),
        decreases kept@.len() - i,
    {
        if kept[i].near(cand, ROOM_MIN_DISTANCE) {
            return false;
        }
        i = i + 1;
    }
    true
}

/// One attempt of room placement: keeps `cand` when it is placed within
/// the margins of `region` and far from every room kept so far.
pub fn consider_room(kept: &mut Vec<RoomBounds>, cand: RoomBounds, region: (usize, usize))
    requires
        region.0 + ROOM_MIN_DISTANCE <= usize::MAX,
        region.1 + ROOM_MIN_DISTANCE <= usize::MAX,
        forall|k: int| 0 <= k < old(kept)@.len() ==> placed(#[trigger] old(kept)@[k], region),
    ensures
        final(kept)@ == (if placed(cand, region) && forall|k: int|
            0 <= k < old(kept)@.len() ==> !(#[trigger] old(kept)@[k]).is_near(cand, ROOM_MIN_DISTANCE as int) {
            old(kept)@.push(cand)
        } else {
            old(kept)@
        }),
        spread(old(kept)@) ==> spread(final(kept)@),
{
    if cand.size.0 < ROOM_SIZE_MIN || cand.size.0 >= ROOM_SIZE_END || cand.size.1 < ROOM_SIZE_MIN || cand.size.1
        >= ROOM_SIZE_END || cand.ul_corner.0 < ROOM_MARGIN || cand.ul_corner.1 < ROOM_MARGIN {
        return;
    }
    if cand.size.0 + ROOM_MARGIN >= region.0 || cand.size.1 + ROOM_MARGIN >= region.1 {
        return;
    }
    if cand.ul_corner.0 >= region.0 - cand.size.0 - ROOM_MARGIN || cand.ul_corner.1 >= region.1 - cand.size.1
        - ROOM_MARGIN {
        return;
    }
    assert(placed(cand, region));
    if far_from_all(kept, &cand) {
        let ghost old_v = kept@;
        kept.push(cand);
        assert forall|a: int, b: int|
            spread(old_v) && 0 <= a < kept@.len() && 0 <= b < kept@.len() && a != b implies !(#[trigger] kept@[a]).is_near(
                #[trigger] kept@[b],
                ROOM_MIN_DISTANCE as int,
            ) by {
            if a < old_v.len() && b < old_v.len() {
                assert(old_v[a] == kept@[a] && old_v[b] == kept@[b]);
            }
        }
    }
}

impl RoomBounds {
    /// Bounds for at most `n_rooms` rooms within a region of size
    /// `region_size`, no two of them near one another. Each of `n_rooms`
    /// attempts draws a size and then a corner, and keeps the room only if
    /// it is far from every room kept before; an attempt whose room cannot
    /// fit with its margins is dropped. Fewer rooms than attempts is normal.
    pub fn generate(n_rooms: usize, region_size: (usize, usize), rng: &mut StdRng) -> (r: Vec<RoomBounds>)
        requires
            region_size.0 + ROOM_MIN_DISTANCE <= usize::MAX,
            region_size.1 + ROOM_MIN_DISTANCE <= usize::MAX,
        ensures
            r@.len() <= n_rooms,
            forall|i: int| 0 <= i < r@.len() ==> placed(#[trigger] r@[i], region_size),
            spread(r@),
            n_rooms >= 1 && region_size.0 >= ROOMS_REGION_MIN && region_size.1 >= ROOMS_REGION_MIN ==> r@.len() >= 1,
    {
        let mut v: Vec<RoomBounds> = Vec::new();
        let mut attempt: usize = 0;
        while attempt < n_rooms
            invariant
                attempt <= n_rooms,
                v@.len() <= attempt,
                region_size.0 + ROOM_MIN_DISTANCE <= usize::MAX,
                region_size.1 + ROOM_MIN_DISTANCE <= usize::MAX,
                forall|i: int| 0 <= i < v@.len() ==> placed(#[trigger] v@[i], region_size),
                spread(v@),
                attempt >= 1 && region_size.0 >= ROOMS_REGION_MIN && region_size.1 >= ROOMS_REGION_MIN ==> v@.len() >= 1,
            decreases n_rooms - attempt,
        {
            let size = (
                random_range(rng, ROOM_SIZE_MIN, ROOM_SIZE_END),
                random_range(rng, ROOM_SIZE_MIN, ROOM_SIZE_END),
            );
            if size.0 + 2 * ROOM_MARGIN < region_size.0 && size.1 + 2 * ROOM_MARGIN < region_size.1 {
                let ul_corner = (
                    random_range(rng, ROOM_MARGIN, region_size.0 - size.0 - ROOM_MARGIN),
                    random_range(rng, ROOM_MARGIN, region_size.1 - size.1 - ROOM_MARGIN),
                );
                consider_room(&mut v, RoomBounds { ul_corner, size }, region_size);
            }
            attempt = attempt + 1;
        }
        v
    }
}

/// Whether the spans `a_start..a_end` and `b_start..b_end` overlap.
fn range_overlapping(a_start: usize, a_end: usize, b_start: usize, b_end: usize) -> (r: bool)
    ensures
        r == spans_overlap(a_start as int, a_end as int, b_start as int, b_end as int),
    decreases (if a_start > b_start { 1int } else { 0int }),
{
    if a_start > b_start {
        range_overlapping(b_start, b_end, a_start, a_end)
    } else {
        a_end > b_start
    }
}

/// What can stop level generation.
#[derive(Debug, Clone, Copy, PartialEq, Eq, Structural)]
pub enum GenerationError {
    /// No floor cell turned up for a staircase within the allowed attempts.
    NoFloorForStairs,
}

/// Some room among the first `n` of `rooms` contains `c`.
pub open spec fn in_first_rooms(rooms: Seq<RoomBounds>, n: int, c: (int, int)) -> bool {
    exists|j: int| 0 <= j < n && (#[trigger] rooms[j]).contains(c)
}

/// The room lies within the grid.
pub open spec fn room_in_grid(b: RoomBounds, g: Grid<DungeonTile>) -> bool {
    b.x_end() <= grid_width(g) && b.y_end() <= rows_of(g)
}

/// Turns every cell of every room into floor.
fn carve_rooms(g: &mut Grid<DungeonTile>, rooms: &Vec<RoomBounds>)
    requires
        grid_wf(*old(g)),
        forall|j: int| 0 <= j < rooms@.len() ==> room_in_grid(#[trigger] rooms@[j], *old(g)),
    ensures
        same_shape(*old(g), *final(g)),
        forall|x: int, y: int|
            in_grid(*old(g), x, y) ==> #[trigger] tile_of(*final(g), x, y) == (if in_first_rooms(
                rooms@,
                rooms@.len() as int,
                (x, y),
            ) {
                DungeonTile::Floor
            } else {
                tile_of(*old(g), x, y)
            }),
{
    let ghost g0 = *g;
    let mut j: usize = 0;
    while j < rooms.len()
        invariant
            0 <= j <= rooms@.len(),
            grid_wf(g0),
            same_shape(g0, *g),
            forall|k: int| 0 <= k < rooms@.len() ==> room_in_grid(#[trigger] rooms@[k], g0),
            forall|x: int, y: int|
                in_grid(g0, x, y) ==> #[trigger] tile_of(*g, x, y) == (if in_first_rooms(rooms@, j as int, (x, y)) {
                    DungeonTile::Floor
                } else {
                    tile_of(g0, x, y)
                }),
        decreases rooms@.len() - j,
    {
        let room = rooms[j];
        assert(room_in_grid(rooms@[j as int], g0));
        let x_min = room.ul_corner.0;
        let y_min = room.ul_corner.1;
        let x_max = x_min + room.size.0;
        let y_max = y_min + room.size.1;
        let mut y = y_min;
        while y < y_max
            invariant
                0 <= j < rooms@.len(),
                room == rooms@[j as int],
                x_min == room.ul_corner.0,
                y_min == room.ul_corner.1,
                x_max == room.x_end(),
                y_max == room.y_end(),
                y_min <= y <= y_max,
                room_in_grid(room, g0),
                grid_wf(g0),
                same_shape(g0, *g),
                forall|x: int, y2: int|
                    in_grid(g0, x, y2) ==> #[trigger] tile_of(*g, x, y2) == (if in_first_rooms(rooms@, j as int, (x, y2))
                        || (room.contains((x, y2)) && y2 < y) {
                        DungeonTile::Floor
                    } else {
                        tile_of(g0, x, y2)
                    }),
            decreases y_max - y,
        {
            let mut x = x_min;
            while x < x_max
                invariant
                    0 <= j < rooms@.len(),
                    room == rooms@[j as int],
                    x_min == room.ul_corner.0,
                    y_min == room.ul_corner.1,
                    x_max == room.x_end(),
                    y_max == room.y_end(),
                    y_min <= y < y_max,
                    x_min <= x <= x_max,
                    room_in_grid(room, g0),
                    grid_wf(g0),
                    same_shape(g0, *g),
                    forall|x2: int, y2: int|
                        in_grid(g0, x2, y2) ==> #[trigger] tile_of(*g, x2, y2) == (if in_first_rooms(rooms@, j as int, (x2, y2))
                            || (room.contains((x2, y2)) && (y2 < y || (y2 == y && x2 < x))) {
                            DungeonTile::Floor
                        } else {
                            tile_of(g0, x2, y2)
                        }),
                decreases x_max - x,
            {
                let ghost before = *g;
                tiles_set(g, y, x, DungeonTile::Floor);
                assert forall|x2: int, y2: int| in_grid(g0, x2, y2) implies #[trigger] tile_of(*g, x2, y2) == (
                if in_first_rooms(rooms@, j as int, (x2, y2)) || (room.contains((x2, y2)) && (y2 < y || (y2 == y
                    && x2 < x + 1))) {
                    DungeonTile::Floor
                } else {
                    tile_of(g0, x2, y2)
                }) by {
                    assert(tile_of(before, x2, y2) == grid_tiles(before)[y2][x2]);
                    if y2 != y || x2 != x {
                        assert(tile_of(*g, x2, y2) == tile_of(before, x2, y2));
                    }
                }
                x = x + 1;
            }
            y = y + 1;
        }
        assert forall|x2: int, y2: int| in_grid(g0, x2, y2) implies #[trigger] tile_of(*g, x2, y2) == (if in_first_rooms(
            rooms@,
            j + 1,
            (x2, y2),
        ) {
            DungeonTile::Floor
        } else {
            tile_of(g0, x2, y2)
        }) by {
            if in_first_rooms(rooms@, j + 1, (x2, y2)) && !in_first_rooms(rooms@, j as int, (x2, y2)) {
                let k = choose|k: int| 0 <= k < j + 1 && (#[trigger] rooms@[k]).contains((x2, y2));
                assert(k == j);
            }
            if room.contains((x2, y2)) {
                assert(in_first_rooms(rooms@, j + 1, (x2, y2)));
            }
        }
        j = j + 1;
    }
}

/// Generates a grid of `size` (width, height) holding at most `n_rooms`
/// rooms joined by hallways, with `upstairs` staircases up and `downstairs`
/// down; returns the grid and where the staircases up and down stand.
pub fn generate(n_rooms: usize, size: (usize, usize), rng: &mut StdRng, upstairs: usize, downstairs: usize) -> (r: Result<
    (Grid<DungeonTile>, Vec<(i32, i32)>, Vec<(i32, i32)>),
    GenerationError,
>)
    requires
        size.0 <= ROUTE_SIZE_MAX,
        size.1 <= ROUTE_SIZE_MAX,
        size.0 * size.1 <= usize::MAX,
    ensures
        match r {
            Ok((g, up, down)) => {
                &&& grid_wf(g)
                &&& size.0 > 0 && size.1 > 0 ==> grid_width(g) == size.0 && rows_of(g) == size.1
                &&& connected(g)
                &&& up@.len() == upstairs
                &&& down@.len() == downstairs
                &&& distinct_cells(up@)
                &&& distinct_cells(down@)
                &&& forall|i: int| 0 <= i < up@.len() ==> holds_at(g, #[trigger] up@[i], DungeonTile::Upstair)
                &&& forall|i: int| 0 <= i < down@.len() ==> holds_at(g, #[trigger] down@[i], DungeonTile::Downstair)
            },
            Err(e) => e == GenerationError::NoFloorForStairs && upstairs + downstairs > 0,
        },
        upstairs + downstairs == 0 ==> r is Ok,
        r matches Ok((g, up, down)) ==> forall|x: int, y: int|
            in_grid(g, x, y) ==> (#[trigger] tile_of(g, x, y) == DungeonTile::Upstair <==> listed(up@, x, y)) && (tile_of(
                g,
                x,
                y,
            ) == DungeonTile::Downstair <==> listed(down@, x, y)),
        r matches Ok((g, up, down)) ==> (n_rooms >= 1 && size.0 >= ROOMS_REGION_MIN && size.1 >= ROOMS_REGION_MIN
            && upstairs + downstairs < ROOM_SIZE_MIN * ROOM_SIZE_MIN ==> exists|x: int, y: int|
            in_grid(g, x, y) && #[trigger] tile_of(g, x, y) == DungeonTile::Floor),
{
    let mut grid = tiles_init(size.1, size.0, DungeonTile::Wall);
    let ghost g0 = grid;
    let rooms = RoomBounds::generate(n_rooms, size, rng);
    assert forall|j: int| 0 <= j < rooms@.len() implies room_ok(#[trigger] rooms@[j], grid) by {
        assert(placed(rooms@[j], size));
    }
    assert(rows_of(grid) * grid_width(grid) <= usize::MAX) by {
        if size.0 > 0 && size.1 > 0 {
            assert(size.1 * size.0 == size.0 * size.1) by (nonlinear_arith);
        }
    }
    carve_rooms(&mut grid, &rooms);
    let ghost g1 = grid;
    assert forall|x: int, y: int| in_grid(g0, x, y) implies #[trigger] tile_of(g0, x, y) == DungeonTile::Wall by {}
    assert forall|j: int, c: (int, int)| 0 <= j < rooms@.len() && #[trigger] rooms@[j].contains(c) implies open_at(g1, c) by {
        assert(room_ok(rooms@[j], g0));
        assert(in_first_rooms(rooms@, rooms@.len() as int, c));
    }
    assert forall|c: (int, int)| #[trigger] open_at(g1, c) implies in_some_room(rooms@, 0, c) by {
        assert(tile_of(g0, c.0, c.1) == DungeonTile::Wall);
        assert(in_first_rooms(rooms@, rooms@.len() as int, c));
    }
    assert forall|j: int| 0 <= j < rooms@.len() implies room_ok(#[trigger] rooms@[j], g1) by {
        assert(room_ok(rooms@[j], g0));
    }
    add_hallways(&mut grid, &rooms, rng);
    let ghost g2 = grid;
    assert forall|x: int, y: int| in_grid(g0, x, y) implies (#[trigger] tile_of(g2, x, y) != DungeonTile::Upstair
        && tile_of(g2, x, y) != DungeonTile::Downstair) by {
        if tile_of(g2, x, y) == tile_of(g1, x, y) {
            assert(tile_of(g0, x, y) == DungeonTile::Wall);
        }
    }
    match add_stairs(&mut grid, upstairs, downstairs, rng) {
        Err(e) => Err(e),
        Ok((up, down)) => {
            proof {
                assert forall|c: (int, int)| #[trigger] open_at(g2, c) implies open_at(grid, c) by {
                    assert(in_grid(g2, c.0, c.1));
                }
                assert forall|c: (int, int)| #[trigger] open_at(grid, c) implies open_at(g2, c) by {
                    assert(in_grid(g2, c.0, c.1));
                    if tile_of(grid, c.0, c.1) != tile_of(g2, c.0, c.1) {
                        assert(tile_of(g2, c.0, c.1) == DungeonTile::Floor);
                    }
                }
                assert forall|a: (int, int), b: (int, int)| open_at(grid, a) && open_at(grid, b) implies #[trigger] linked(grid, a, b) by {
                    assert(open_at(g2, a) && open_at(g2, b));
                    assert(linked(g2, a, b));
                    lemma_linked_kept(g2, grid, a, b);
                }
                assert forall|x: int, y: int| in_grid(grid, x, y) implies (#[trigger] tile_of(grid, x, y) == DungeonTile::Upstair
                    <==> listed(up@, x, y)) && (tile_of(grid, x, y) == DungeonTile::Downstair <==> listed(down@, x, y)) by {
                    assert(in_grid(g0, x, y));
                    if listed(up@, x, y) {
                        let i = choose|i: int| 0 <= i < up@.len() && (#[trigger] up@[i]).0 as int == x && up@[i].1 as int == y;
                        assert(holds_at(grid, up@[i], DungeonTile::Upstair));
                    }
                    if listed(down@, x, y) {
                        let i = choose|i: int| 0 <= i < down@.len() && (#[trigger] down@[i]).0 as int == x && down@[i].1 as int == y;
                        assert(holds_at(grid, down@[i], DungeonTile::Downstair));
                    }
                }
                if n_rooms >= 1 && size.0 >= ROOMS_REGION_MIN && size.1 >= ROOMS_REGION_MIN && upstairs + downstairs
                    < ROOM_SIZE_MIN * ROOM_SIZE_MIN {
                    let r0 = rooms@[0];
                    assert(placed(r0, size));
                    let a = r0.ul_corner.0 as int;
                    let b = r0.ul_corner.1 as int;
                    if forall|x: int, y: int| in_grid(grid, x, y) ==> #[trigger] tile_of(grid, x, y) != DungeonTile::Floor {
                        assert forall|i: int, j: int| 0 <= i < 4 && 0 <= j < 4 implies listed(up@, a + i, b + j)
                            || #[trigger] listed(down@, a + i, b + j) by {
                            assert(r0.contains((a + i, b + j)));
                            assert(in_first_rooms(rooms@, rooms@.len() as int, (a + i, b + j)));
                            assert(tile_of(g1, a + i, b + j) == DungeonTile::Floor);
                            assert(tile_of(g2, a + i, b + j) == DungeonTile::Floor);
                            assert(tile_of(grid, a + i, b + j) != DungeonTile::Floor);
                        }
                        lemma_block_needs_sixteen(a, b, up@, down@);
                    }
                }
            }
            Ok((grid, up, down))
        },
    }
}

/// Sixteen different cells, the four-by-four block at (`a`, `b`), cannot
/// all be listed in `up` and `down` together unless these hold sixteen
/// cells or more.
proof fn lemma_block_needs_sixteen(a: int, b: int, up: Seq<(i32, i32)>, down: Seq<(i32, i32)>)
    requires
        forall|i: int, j: int| 0 <= i < 4 && 0 <= j < 4 ==> listed(up, a + i, b + j) || #[trigger] listed(down, a + i, b + j),
    ensures
        up.len() + down.len() >= 16,
{
    let block: Seq<(int, int)> = seq![
        (a, b), (a + 1, b), (a + 2, b), (a + 3, b),
        (a, b + 1), (a + 1, b + 1), (a + 2, b + 1), (a + 3, b + 1),
        (a, b + 2), (a + 1, b + 2), (a + 2, b + 2), (a + 3, b + 2),
        (a, b + 3), (a + 1, b + 3), (a + 2, b + 3), (a + 3, b + 3),
    ];
    let all = (up + down).map_values(|p: (i32, i32)| (p.0 as int, p.1 as int));
    assert(block.no_duplicates());
    block.unique_seq_to_set();
    all.lemma_cardinality_of_set();
    assert forall|c: (int, int)| block.to_set().contains(c) implies all.to_set().contains(c) by {
        let k = choose|k: int| 0 <= k < block.len() && block[k] == c;
        let i = c.0 - a;
        let j = c.1 - b;
        assert(0 <= i < 4 && 0 <= j < 4);
        if listed(up, a + i, b + j) {
            let m = choose|m: int| 0 <= m < up.len() && (#[trigger] up[m]).0 as int == a + i && up[m].1 as int == b + j;
            assert(all[m] == c);
        } else {
            assert(listed(down, a + i, b + j));
            let m = choose|m: int| 0 <= m < down.len() && (#[trigger] down[m]).0 as int == a + i && down[m].1 as int == b + j;
            assert((up + down)[up.len() + m] == down[m]);
            assert(all[up.len() + m] == c);
        }
    }
    vstd::set_lib::lemma_len_subset(block.to_set(), all.to_set());
}

/// Generates a level of the standard size with at most `n_rooms` rooms and
/// the given numbers of staircases up and down.
pub fn generate_level(n_rooms: usize, rng: &mut StdRng, upstairs: usize, downstairs: usize) -> (r: Result<DungeonLevel, GenerationError>)
    ensures
        match r {
            Ok(level) => {
                let g = level.grid();
                let up = level.exit_cells().upstairs@;
                let down = level.exit_cells().downstairs@;
                &&& level.wf()
                &&& grid_width(g) == LEVEL_WIDTH
                &&& rows_of(g) == LEVEL_HEIGHT
                &&& connected(g)
                &&& up.len() == upstairs
                &&& down.len() == downstairs
                &&& distinct_cells(up)
                &&& distinct_cells(down)
                &&& forall|i: int| 0 <= i < up.len() ==> holds_at(g, #[trigger] up[i], DungeonTile::Upstair)
                &&& forall|i: int| 0 <= i < down.len() ==> holds_at(g, #[trigger] down[i], DungeonTile::Downstair)
                &&& forall|x: int, y: int|
                    in_grid(g, x, y) ==> (#[trigger] tile_of(g, x, y) == DungeonTile::Upstair <==> listed(up, x, y)) && (
                    tile_of(g, x, y) == DungeonTile::Downstair <==> listed(down, x, y))
                &&& n_rooms >= 1 && upstairs + downstairs < ROOM_SIZE_MIN * ROOM_SIZE_MIN ==> exists|x: int, y: int|
                    in_grid(g, x, y) && #[trigger] tile_of(g, x, y) == DungeonTile::Floor
            },
            Err(e) => e == GenerationError::NoFloorForStairs && upstairs + downstairs > 0,
        },
        upstairs + downstairs == 0 ==> r is Ok,
{
    match generate(n_rooms, (LEVEL_WIDTH, LEVEL_HEIGHT), rng, upstairs, downstairs) {
        Ok((tiles, up, down)) => Ok(DungeonLevel::new(tiles, up, down)),
        Err(e) => Err(e),
    }
}
} // verus!
