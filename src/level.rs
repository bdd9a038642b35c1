//! A generated dungeon level: its tiles, its exits, how its cells are
//! drawn, and what an observer standing in it can see.

use grid::Grid;
use vstd::prelude::*;

use crate::colors::Color;
use crate::connectivity::open_at;
use crate::stairs::i32_sized;
use crate::tile::DungeonTile;
use crate::tilegrid::{grid_wf, grid_width, in_grid, rows_of, tile_of, tiles_cols, tiles_get, tiles_rows};
use crate::visibility::{
    clear_in, lemma_sees_weaker, lit_in, only_clear_in, only_lit_in, sees, visible, CellVisibility, Lighting,
};

verus! {

/// The width of a level, in cells.
pub const LEVEL_WIDTH: usize = 80;

/// The height of a level, in cells.
pub const LEVEL_HEIGHT: usize = 24;

/// How far an observer sees, in cells.
pub const SIGHT_RADIUS: i32 = 10;

/// The entrances and exits of a level.
#[derive(Debug, Clone)]
pub struct LevelExits {
    /// Where each staircase up stands.
    pub upstairs: Vec<(i32, i32)>,
    /// Where each staircase down stands.
    pub downstairs: Vec<(i32, i32)>,
}

/// A style for drawing one cell of a level.
#[derive(Debug, Clone, Copy, PartialEq, Eq, Structural)]
pub enum DrawStyle {
    /// Not drawn: the player has never seen this cell.
    Undiscovered,
    /// Drawn dimmed: seen before and remembered, but not in view.
    Discovered,
    /// Drawn normally: in view.
    Visible,
}

/// The parameters that characterize a branch of the dungeon. There is one
/// kind of branch so far, so there are none yet.
#[derive(Debug, Clone, Copy, PartialEq, Eq, Structural)]
pub struct BranchConfig;

/// The root of a dungeon.
pub struct Dungeon {
    pub main_branch: DungeonBranch,
}

/// One branch of a dungeon: a number of levels, which may hold passages to
/// other branches.
pub struct DungeonBranch {
    pub config: BranchConfig,
    pub levels: Vec<DungeonLevel>,
}

/// A single level of the dungeon.
pub struct DungeonLevel {
    tiles: Grid<DungeonTile>,
    exits: LevelExits,
}

/// Whether the cell at (`x`, `y`) exists and is open; light passes
/// through exactly these cells.
pub open spec fn open_cell(g: Grid<DungeonTile>, x: int, y: int) -> bool {
    open_at(g, (x, y))
}

/// The cells that let light through: the open ones.
pub open spec fn clear_cells(g: Grid<DungeonTile>) -> spec_fn((i32, i32)) -> bool {
    |p: (i32, i32)| open_cell(g, p.0 as int, p.1 as int)
}

/// Every cell lit.
pub open spec fn all_lit() -> spec_fn((i32, i32)) -> bool {
    |p: (i32, i32)| true
}

/// The character a cell is drawn with. A wall is drawn `-` when a
/// neighbour to its north or south is open, else `|` when one to its east
/// or west is, else `+` when a diagonal neighbour is, and is left blank
/// when it touches no open cell at all.
pub open spec fn glyph(g: Grid<DungeonTile>, x: int, y: int) -> char {
    match tile_of(g, x, y) {
        DungeonTile::Floor => '.',
        DungeonTile::Hallway => '#',
        DungeonTile::Upstair => '<',
        DungeonTile::Downstair => '>',
        DungeonTile::Wall => {
            if open_cell(g, x, y - 1) || open_cell(g, x, y + 1) {
                '-'
            } else if open_cell(g, x - 1, y) || open_cell(g, x + 1, y) {
                '|'
            } else if open_cell(g, x - 1, y - 1) || open_cell(g, x - 1, y + 1) || open_cell(g, x + 1, y - 1)
                || open_cell(g, x + 1, y + 1) {
                '+'
            } else {
                ' '
            }
        },
    }
}

/// `g2` is `g1` turned half a circle: the same size, with the cell at
/// (x, y) of `g1` at (width - 1 - x, height - 1 - y) of `g2`.
pub open spec fn half_turn(g1: Grid<DungeonTile>, g2: Grid<DungeonTile>) -> bool {
    &&& grid_width(g1) == grid_width(g2)
    &&& rows_of(g1) == rows_of(g2)
    &&& forall|x: int, y: int|
        in_grid(g1, x, y) ==> #[trigger] tile_of(g2, grid_width(g1) - 1 - x, rows_of(g1) - 1 - y) == tile_of(g1, x, y)
}

/// Turning a level half a circle turns its drawing with it: each cell is
/// drawn as the cell it came from was, since north and south neighbours
/// trade places, as do east and west ones and opposite diagonals.
pub proof fn lemma_glyph_half_turn(g1: Grid<DungeonTile>, g2: Grid<DungeonTile>, x: int, y: int)
    requires
        half_turn(g1, g2),
        in_grid(g1, x, y),
    ensures
        glyph(g2, grid_width(g1) - 1 - x, rows_of(g1) - 1 - y) == glyph(g1, x, y),
{
    let w = grid_width(g1);
    let h = rows_of(g1);
    assert forall|a: int, b: int| #[trigger] open_cell(g2, w - 1 - a, h - 1 - b) == open_cell(g1, a, b) by {
        if in_grid(g1, a, b) {
            assert(tile_of(g2, w - 1 - a, h - 1 - b) == tile_of(g1, a, b));
        }
    }
    assert(open_cell(g2, w - 1 - x, h - 1 - (y - 1)) == open_cell(g1, x, y - 1));
    assert(open_cell(g2, w - 1 - x, h - 1 - (y + 1)) == open_cell(g1, x, y + 1));
    assert(open_cell(g2, w - 1 - (x - 1), h - 1 - y) == open_cell(g1, x - 1, y));
    assert(open_cell(g2, w - 1 - (x + 1), h - 1 - y) == open_cell(g1, x + 1, y));
    assert(open_cell(g2, w - 1 - (x - 1), h - 1 - (y - 1)) == open_cell(g1, x - 1, y - 1));
    assert(open_cell(g2, w - 1 - (x - 1), h - 1 - (y + 1)) == open_cell(g1, x - 1, y + 1));
    assert(open_cell(g2, w - 1 - (x + 1), h - 1 - (y - 1)) == open_cell(g1, x + 1, y - 1));
    assert(open_cell(g2, w - 1 - (x + 1), h - 1 - (y + 1)) == open_cell(g1, x + 1, y + 1));
}

impl DungeonLevel {
    /// The level's tiles.
    pub closed spec fn grid(&self) -> Grid<DungeonTile> {
        self.tiles
    }

    /// The level's exits.
    pub closed spec fn exit_cells(&self) -> LevelExits {
        self.exits
    }

    /// Every row has the level's width, and coordinates fit in `i32`.
    pub open spec fn wf(&self) -> bool {
        grid_wf(self.grid()) && i32_sized(self.grid())
    }

    /// Whether an observer at `from` sees `to`: within `SIGHT_RADIUS`, the
    /// whole level being lit and open cells letting light through.
    pub open spec fn sight(&self, from: (i32, i32), to: (i32, i32)) -> bool {
        sees(
            from,
            to,
            Some(SIGHT_RADIUS),
            clear_cells(self.grid()),
            all_lit(),
        )
    }

    /// A level with the given tiles and staircases.
    pub fn new(tiles: Grid<DungeonTile>, upstairs: Vec<(i32, i32)>, downstairs: Vec<(i32, i32)>) -> (r: Self)
        requires
            grid_wf(tiles),
            i32_sized(tiles),
        ensures
            r.wf(),
            r.grid() == tiles,
            r.exit_cells().upstairs@ == upstairs@,
            r.exit_cells().downstairs@ == downstairs@,
    {
        DungeonLevel { tiles, exits: LevelExits { upstairs, downstairs } }
    }

    /// The level's exits.
    pub fn exits(&self) -> (r: &LevelExits)
        ensures
            r == self.exit_cells(),
    {
        &self.exits
    }

    /// The number of columns.
    pub fn width(&self) -> (r: usize)
        ensures
            r == grid_width(self.grid()),
    {
        tiles_cols(&self.tiles)
    }

    /// The number of rows.
    pub fn height(&self) -> (r: usize)
        ensures
            r == rows_of(self.grid()),
    {
        tiles_rows(&self.tiles)
    }

    /// The tile at column `x` of row `y`, which must lie in the level.
    pub fn tile(&self, x: i32, y: i32) -> (r: DungeonTile)
        requires
            in_grid(self.grid(), x as int, y as int),
        ensures
            r == tile_of(self.grid(), x as int, y as int),
    {
        match tiles_get(&self.tiles, y as usize, x as usize) {
            Some(t) => t,
            None => DungeonTile::Wall,
        }
    }

    /// The tile at column `x` of row `y`, or `None` outside the level.
    pub fn tile_at_unchecked(&self, x: usize, y: usize) -> (r: Option<DungeonTile>)
        ensures
            r == (if in_grid(self.grid(), x as int, y as int) {
                Some(tile_of(self.grid(), x as int, y as int))
            } else {
                None::<DungeonTile>
            }),
    {
        tiles_get(&self.tiles, y, x)
    }

    /// Whether the cell `dx`, `dy` away from (`x`, `y`) exists and is open.
    fn open_near(&self, x: usize, y: usize, dx: i8, dy: i8) -> (r: bool)
        requires
            self.wf(),
            -1 <= dx <= 1,
            -1 <= dy <= 1,
        ensures
            r == open_cell(self.grid(), x + dx, y + dy),
    {
        if (dx < 0 && x == 0) || (dy < 0 && y == 0) || (dx > 0 && x == usize::MAX) || (dy > 0 && y
            == usize::MAX) {
            return false;
        }
        let nx = if dx < 0 { x - 1 } else if dx > 0 { x + 1 } else { x };
        let ny = if dy < 0 { y - 1 } else if dy > 0 { y + 1 } else { y };
        match tiles_get(&self.tiles, ny, nx) {
            Some(t) => t.is_floor(),
            None => false,
        }
    }

    /// The character the cell at column `x` of row `y` is drawn with.
    pub fn render_tile(&self, x: usize, y: usize) -> (r: char)
        requires
            self.wf(),
            in_grid(self.grid(), x as int, y as int),
        ensures
            r == glyph(self.grid(), x as int, y as int),
    {
        match tiles_get(&self.tiles, y, x) {
            None => ' ',
            Some(DungeonTile::Floor) => '.',
            Some(DungeonTile::Hallway) => '#',
            Some(DungeonTile::Upstair) => '<',
            Some(DungeonTile::Downstair) => '>',
            Some(DungeonTile::Wall) => {
                if self.open_near(x, y, 0, -1) || self.open_near(x, y, 0, 1) {
                    '-'
                } else if self.open_near(x, y, -1, 0) || self.open_near(x, y, 1, 0) {
                    '|'
                } else if self.open_near(x, y, -1, -1) || self.open_near(x, y, -1, 1) || self.open_near(
                    x,
                    y,
                    1,
                    -1,
                ) || self.open_near(x, y, 1, 1) {
                    '+'
                } else {
                    ' '
                }
            },
        }
    }

    /// How the cell at (`x`, `y`) is drawn in `style`: not at all when
    /// undiscovered, else its character, dimmed (in red) when only
    /// remembered and in white when in view.
    pub fn appearance(&self, x: usize, y: usize, style: DrawStyle) -> (r: Option<(char, Color)>)
        requires
            self.wf(),
            in_grid(self.grid(), x as int, y as int),
        ensures
            r == (match style {
                DrawStyle::Undiscovered => None,
                DrawStyle::Discovered => Some((glyph(self.grid(), x as int, y as int), Color::Red)),
                DrawStyle::Visible => Some((glyph(self.grid(), x as int, y as int), Color::White)),
            }),
    {
        match style {
            DrawStyle::Undiscovered => None,
            DrawStyle::Discovered => Some((self.render_tile(x, y), Color::Red)),
            DrawStyle::Visible => Some((self.render_tile(x, y), Color::White)),
        }
    }

    /// The style of cell `cell` for a player at `at` who knows the cells
    /// marked in `known`: in view, else remembered, else undiscovered.
    /// A cell outside `known` counts as unknown.
    pub fn draw_style(&self, known: &Vec<Vec<bool>>, at: (i32, i32), cell: (i32, i32)) -> (r: DrawStyle)
        ensures
            r == (if self.sight(at, cell) {
                DrawStyle::Visible
            } else if 0 <= cell.1 < known@.len() && 0 <= cell.0 < known@[cell.1 as int]@.len()
                && known@[cell.1 as int]@[cell.0 as int] {
                DrawStyle::Discovered
            } else {
                DrawStyle::Undiscovered
            }),
    {
        if self.can_see(at, cell) {
            DrawStyle::Visible
        } else if cell.1 >= 0 && (cell.1 as usize) < known.len() && cell.0 >= 0 && (cell.0 as usize)
            < known[cell.1 as usize].len() && known[cell.1 as usize][cell.0 as usize] {
            DrawStyle::Discovered
        } else {
            DrawStyle::Undiscovered
        }
    }

    /// Whether an observer standing at `from` sees the contents of `to`.
    /// The whole level is lit; open cells let light through, walls and
    /// cells outside the level block it.
    pub fn can_see(&self, from: (i32, i32), to: (i32, i32)) -> (r: bool)
        ensures
            r == self.sight(from, to),
    {
        let cell_map = |p: (i32, i32)| -> (v: CellVisibility)
            ensures
                v == (if open_cell(self.grid(), p.0 as int, p.1 as int) {
                    CellVisibility::Transparent
                } else {
                    CellVisibility::Blocking
                }),
            {
                if p.0 < 0 || p.1 < 0 {
                    CellVisibility::Blocking
                } else {
                    match tiles_get(&self.tiles, p.1 as usize, p.0 as usize) {
                        Some(t) => {
                            if t.is_navigable() {
                                CellVisibility::Transparent
                            } else {
                                CellVisibility::Blocking
                            }
                        },
                        None => CellVisibility::Blocking,
                    }
                }
            };
        let light_map = |p: (i32, i32)| -> (v: Lighting)
            ensures
                v == Lighting::Lit,
            { Lighting::Lit };
        let r = visible(from, to, Some(SIGHT_RADIUS), cell_map, light_map);
        proof {
            let open = clear_cells(self.grid());
            let all = all_lit();
            if r {
                assert forall|p: (i32, i32)| #[trigger] clear_in(cell_map)(p) implies open(p) by {}
                lemma_sees_weaker(from, to, Some(SIGHT_RADIUS), clear_in(cell_map), lit_in(light_map), open, all);
            } else {
                assert forall|p: (i32, i32)| #[trigger] open(p) implies only_clear_in(cell_map)(p) by {}
                assert forall|p: (i32, i32)| #[trigger] all(p) implies only_lit_in(light_map)(p) by {}
                if sees(from, to, Some(SIGHT_RADIUS), open, all) {
                    lemma_sees_weaker(from, to, Some(SIGHT_RADIUS), open, all, only_clear_in(cell_map), only_lit_in(light_map));
                }
            }
        }
        r
    }
}


/// Marks in `known`, row by row, every cell of `level` that an observer at
/// `pos` sees now. Marks are only ever added, never taken away.
pub fn update_discovery(known: &mut Vec<Vec<bool>>, pos: (i32, i32), level: &DungeonLevel)
    requires
        level.wf(),
        old(known)@.len() == rows_of(level.grid()),
        forall|y: int| 0 <= y < old(known)@.len() ==> (#[trigger] old(known)@[y])@.len() == grid_width(level.grid()),
    ensures
        final(known)@.len() == old(known)@.len(),
        forall|y: int| 0 <= y < final(known)@.len() ==> (#[trigger] final(known)@[y])@.len() == old(known)@[y]@.len(),
        forall|y: int, x: int|
            0 <= y < final(known)@.len() && 0 <= x < final(known)@[y]@.len() ==> #[trigger] final(known)@[y]@[x] == (
            old(known)@[y]@[x] || level.sight(pos, (x as i32, y as i32))),
        forall|y: int, x: int|
            0 <= y < final(known)@.len() && 0 <= x < final(known)@[y]@.len() && old(known)@[y]@[x]
                ==> #[trigger] final(known)@[y]@[x],
{
    let height = level.height();
    let width = level.width();
    let mut rows: Vec<Vec<bool>> = Vec::new();
    let mut y: usize = 0;
    while y < height
        invariant
            0 <= y <= height,
            height == rows_of(level.grid()),
            width == grid_width(level.grid()),
            level.wf(),
            known@.len() == height,
            forall|k: int| 0 <= k < known@.len() ==> (#[trigger] known@[k])@.len() == width,
            rows@.len() == y,
            forall|k: int| 0 <= k < y ==> (#[trigger] rows@[k])@.len() == width,
            forall|k: int, x: int|
                0 <= k < y && 0 <= x < width ==> #[trigger] rows@[k]@[x] == (known@[k]@[x] || level.sight(
                    pos,
                    (x as i32, k as i32),
                )),
        decreases height - y,
    {
        let mut row: Vec<bool> = Vec::new();
        let mut x: usize = 0;
        while x < width
            invariant
                0 <= x <= width,
                0 <= y < height,
                height == rows_of(level.grid()),
                width == grid_width(level.grid()),
                level.wf(),
                known@.len() == height,
                forall|k: int| 0 <= k < known@.len() ==> (#[trigger] known@[k])@.len() == width,
                row@.len() == x,
                forall|i: int|
                    0 <= i < x ==> #[trigger] row@[i] == (known@[y as int]@[i] || level.sight(pos, (i as i32, y as i32))),
            decreases width - x,
        {
            let seen = level.can_see(pos, (x as i32, y as i32));
            row.push(known[y][x] || seen);
            x = x + 1;
        }
        rows.push(row);
        y = y + 1;
    }
    *known = rows;
}

} // verus!
