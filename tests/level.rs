use grid::Grid;
use rand::rngs::StdRng;
use rand::SeedableRng;
use roguelike::colors::{check_color_support, Color, ColorError};
use roguelike::components::{key_command, Command, Key, MobAction, Mobile, Position, TurnTaker};
use roguelike::level::{update_discovery, DrawStyle, DungeonLevel, LEVEL_HEIGHT, LEVEL_WIDTH};
use roguelike::hallways::{join_rooms, route_steps};
use roguelike::rooms::{generate, generate_level, GenerationError};
use roguelike::stairs::{add_stairs, floor_cell};
use roguelike::tile::DungeonTile;
use roguelike::visibility::{visible, CellVisibility, Lighting};

use DungeonTile::{Downstair, Floor, Hallway, Upstair, Wall};

fn grid_of(rows: &[&str]) -> Grid<DungeonTile> {
    let cols = rows[0].len();
    let mut cells = Vec::new();
    for r in rows {
        for c in r.chars() {
            cells.push(match c {
                '.' => Floor,
                '#' => Hallway,
                '<' => Upstair,
                '>' => Downstair,
                _ => Wall,
            });
        }
    }
    Grid::from_vec(cells, cols)
}

fn level_of(rows: &[&str]) -> DungeonLevel {
    DungeonLevel::new(grid_of(rows), vec![], vec![])
}

fn drawing(level: &DungeonLevel) -> Vec<String> {
    (0..level.height())
        .map(|y| (0..level.width()).map(|x| level.render_tile(x, y)).collect())
        .collect()
}

fn open_cells(g: &Grid<DungeonTile>) -> Vec<(usize, usize)> {
    let mut v = Vec::new();
    for y in 0..g.rows() {
        for x in 0..g.cols() {
            if g[(y, x)] != Wall {
                v.push((x, y));
            }
        }
    }
    v
}

fn flood_reaches_all(g: &Grid<DungeonTile>) -> bool {
    let open = open_cells(g);
    if open.is_empty() {
        return true;
    }
    let mut seen = vec![vec![false; g.cols()]; g.rows()];
    let mut stack = vec![open[0]];
    seen[open[0].1][open[0].0] = true;
    let mut count = 0;
    while let Some((x, y)) = stack.pop() {
        count += 1;
        let mut next = Vec::new();
        if x > 0 {
            next.push((x - 1, y));
        }
        if y > 0 {
            next.push((x, y - 1));
        }
        next.push((x + 1, y));
        next.push((x, y + 1));
        for (nx, ny) in next {
            if nx < g.cols() && ny < g.rows() && g[(ny, nx)] != Wall && !seen[ny][nx] {
                seen[ny][nx] = true;
                stack.push((nx, ny));
            }
        }
    }
    count == open.len()
}

#[test]
fn floor_and_navigable_kinds() {
    assert!(!Wall.is_floor());
    assert!(!Wall.is_navigable());
    for t in [Floor, Hallway, Upstair, Downstair] {
        assert!(t.is_floor());
        assert!(t.is_navigable());
    }
}

#[test]
fn walls_drawn_by_their_open_neighbours() {
    let level = level_of(&["xxxxxx", "x...xx", "x.<.xx", "xxxxxx", "xxxxxx"]);
    assert_eq!(
        drawing(&level),
        vec!["+---+ ", "|...| ", "|.<.| ", "+---+ ", "      "]
    );
}

#[test]
fn hallway_and_stairs_glyphs() {
    let level = level_of(&["#<>"]);
    assert_eq!(drawing(&level), vec!["#<>"]);
}

#[test]
fn north_south_beats_east_west() {
    let level = level_of(&["x.x", ".x.", "xxx"]);
    assert_eq!(level.render_tile(1, 1), '-');
    let level = level_of(&["xxx", ".x.", "xxx"]);
    assert_eq!(level.render_tile(1, 1), '|');
}

#[test]
fn drawing_turns_with_the_level() {
    let rows = ["xxxxxxx", "x..xxxx", "x.#####", "xxxx.xx", "xxxxxxx"];
    let turned: Vec<String> = rows.iter().rev().map(|r| r.chars().rev().collect()).collect();
    let turned_refs: Vec<&str> = turned.iter().map(|s| s.as_str()).collect();
    let a = drawing(&level_of(&rows));
    let b = drawing(&level_of(&turned_refs));
    let b_back: Vec<String> = b.iter().rev().map(|r| r.chars().rev().collect()).collect();
    assert_eq!(a, b_back);
}

#[test]
fn tile_reads_the_cell() {
    let level = level_of(&["x.", "<x"]);
    assert_eq!(level.tile(1, 0), Floor);
    assert_eq!(level.tile(0, 1), Upstair);
    assert_eq!(level.tile(0, 0), Wall);
    assert_eq!(level.width(), 2);
    assert_eq!(level.height(), 2);
}

#[test]
fn can_see_through_open_cells_only() {
    let level = level_of(&["......", "..x...", "......"]);
    assert!(level.can_see((0, 1), (1, 1)));
    assert!(level.can_see((0, 1), (2, 1)));
    assert!(!level.can_see((0, 1), (4, 1)));
    assert!(level.can_see((0, 0), (5, 0)));
}

#[test]
fn can_see_is_limited_to_radius() {
    let row = ".".repeat(12);
    let level = level_of(&[row.as_str()]);
    assert!(level.can_see((0, 0), (9, 0)));
    assert!(!level.can_see((0, 0), (10, 0)));
}

#[test]
fn discovery_only_adds() {
    let level = level_of(&["....x..", "....x.."]);
    let mut known = vec![vec![false; 7]; 2];
    known[0][6] = true;
    update_discovery(&mut known, (0, 0), &level);
    assert!(known[0][0] && known[1][3] && known[0][4]);
    assert!(!known[0][5] && !known[1][6]);
    assert!(known[0][6]);
    update_discovery(&mut known, (6, 1), &level);
    assert!(known[0][0] && known[0][5] && known[0][6]);
    assert_eq!(known.len(), 2);
    assert_eq!(known[1].len(), 7);
}

#[test]
fn stairs_land_on_floor_only() {
    let mut g = grid_of(&["xxxxx", "x..#x", "xxxxx"]);
    let before = g.clone();
    let mut rng = StdRng::seed_from_u64(7);
    let (up, down) = add_stairs(&mut g, 1, 1, &mut rng).unwrap();
    assert_eq!(up.len(), 1);
    assert_eq!(down.len(), 1);
    assert_eq!(g[(up[0].1 as usize, up[0].0 as usize)], Upstair);
    assert_eq!(g[(down[0].1 as usize, down[0].0 as usize)], Downstair);
    assert_ne!(up[0], down[0]);
    for y in 0..3 {
        for x in 0..5 {
            if before[(y, x)] != Floor {
                assert_eq!(g[(y, x)], before[(y, x)]);
            }
        }
    }
}

#[test]
fn stairs_without_floor_fail() {
    let mut g = grid_of(&["xxx", "x#x", "xxx"]);
    let mut rng = StdRng::seed_from_u64(7);
    assert_eq!(add_stairs(&mut g, 1, 0, &mut rng), Err(GenerationError::NoFloorForStairs));
    assert_eq!(g[(1, 1)], Hallway);
}

#[test]
fn more_stairs_than_floor_fail() {
    let mut g = grid_of(&["xxxx", "x..x", "xxxx"]);
    let mut rng = StdRng::seed_from_u64(3);
    assert_eq!(add_stairs(&mut g, 2, 1, &mut rng), Err(GenerationError::NoFloorForStairs));
}

#[test]
fn small_level_end_to_end() {
    let mut rng = StdRng::seed_from_u64(42);
    let (g, up, down) = generate(5, (20, 10), &mut rng, 1, 1).unwrap();
    assert_eq!(g.cols(), 20);
    assert_eq!(g.rows(), 10);
    assert!(g.iter().any(|t| *t == Floor));
    assert_eq!(g.iter().filter(|t| **t == Upstair).count(), 1);
    assert_eq!(g.iter().filter(|t| **t == Downstair).count(), 1);
    assert_eq!(up.len(), 1);
    assert_eq!(down.len(), 1);
    assert_eq!(g[(up[0].1 as usize, up[0].0 as usize)], Upstair);
    assert_eq!(g[(down[0].1 as usize, down[0].0 as usize)], Downstair);
    assert!(flood_reaches_all(&g));
    let from = up[0];
    for y in 0..10i32 {
        for x in 0..20i32 {
            let d = (x - from.0) * (x - from.0) + (y - from.1) * (y - from.1);
            let seen = visible(from, (x, y), Some(10), |_| CellVisibility::Transparent, |_| Lighting::Lit);
            assert_eq!(seen, d < 100);
        }
    }
}

#[test]
fn generated_levels_are_connected() {
    for seed in 0..10u64 {
        let mut rng = StdRng::seed_from_u64(seed);
        let (g, up, down) = generate(100, (80, 24), &mut rng, 2, 3).unwrap();
        assert!(flood_reaches_all(&g));
        assert_eq!(up.len(), 2);
        assert_eq!(down.len(), 3);
        assert!(g.iter().any(|t| *t == Hallway));
    }
}

#[test]
fn generated_rooms_keep_their_floor() {
    let mut rng = StdRng::seed_from_u64(5);
    let (g, _, _) = generate(30, (40, 20), &mut rng, 0, 0).unwrap();
    assert!(g.iter().any(|t| *t == Floor));
    assert!(g.iter().all(|t| *t != Upstair && *t != Downstair));
}

#[test]
fn empty_region_has_no_floor_for_stairs() {
    let mut rng = StdRng::seed_from_u64(5);
    assert!(matches!(generate(5, (0, 0), &mut rng, 1, 0), Err(GenerationError::NoFloorForStairs)));
}

#[test]
fn standard_level() {
    let mut rng = StdRng::seed_from_u64(9);
    let level = generate_level(100, &mut rng, 1, 1).unwrap();
    assert_eq!(level.width(), LEVEL_WIDTH);
    assert_eq!(level.height(), LEVEL_HEIGHT);
    assert_eq!(level.exits().upstairs.len(), 1);
    assert_eq!(level.exits().downstairs.len(), 1);
    let (x, y) = level.exits().upstairs[0];
    assert_eq!(level.tile(x, y), Upstair);
    assert!(level.can_see((x, y), (x, y)));
}

#[test]
fn turn_taker_counts_down_and_restarts() {
    let mut t = TurnTaker { next: 1, maximum: 10 };
    t.tick();
    assert_eq!(t.next, 0);
    assert!(t.is_due());
    t.tick();
    assert_eq!(t.next, 10);
    assert!(!t.is_due());
}

#[test]
fn mobile_moves_then_waits() {
    let mut m = Mobile { next_action: MobAction::Move(-1, 2) };
    let mut p = Position { x: 5, y: 5 };
    m.act(&mut p);
    assert_eq!((p.x, p.y), (4, 7));
    assert_eq!(m.next_action, MobAction::Nop);
    m.act(&mut p);
    assert_eq!(p.coords(), (4, 7));
    assert_eq!(Position::from_coords((1, 2)), Position { x: 1, y: 2 });
}

#[test]
fn keys_map_to_commands() {
    assert_eq!(key_command(Key::Char('h')), Some(Command::Act(MobAction::Move(-1, 0))));
    assert_eq!(key_command(Key::Down), Some(Command::Act(MobAction::Move(0, 1))));
    assert_eq!(key_command(Key::Char('n')), Some(Command::Act(MobAction::Move(1, 1))));
    assert_eq!(key_command(Key::Char('.')), Some(Command::Act(MobAction::Nop)));
    assert_eq!(key_command(Key::Char('q')), Some(Command::Quit));
    assert_eq!(key_command(Key::Char('z')), None);
    assert_eq!(key_command(Key::Other), None);
}

#[test]
fn moves_only_onto_open_cells() {
    let level = level_of(&["x.", ".."]);
    let p = Position { x: 1, y: 1 };
    assert!(level.allows(p, MobAction::Nop));
    assert!(level.allows(p, MobAction::Move(0, -1)));
    assert!(!level.allows(p, MobAction::Move(-1, -1)));
    assert!(!level.allows(p, MobAction::Move(1, 0)));
    assert!(!level.allows(Position { x: 0, y: 0 }, MobAction::Move(-1, 0)));
}

#[test]
fn color_numbers() {
    assert_eq!(Color::Black.number(), 0);
    assert_eq!(Color::Red.number(), 1);
    assert_eq!(Color::White.number(), 7);
    assert_eq!(Color::from_number(4), Some(Color::Blue));
    assert_eq!(Color::from_number(8), None);
    assert_eq!(Color::from_number(-1), None);
}

#[test]
fn route_steps_cost_stone_and_open_cells() {
    let tiles = grid_of(&["x.x", "xxx"]);
    let weights = Grid::from_vec(vec![400, 500, 600, 700, 800, 900], 3);
    assert_eq!(route_steps(&tiles, &weights, (1, 1)), vec![((0, 1), 700), ((2, 1), 900), ((1, 0), 200)]);
    assert_eq!(route_steps(&tiles, &weights, (0, 0)), vec![((1, 0), 200), ((0, 1), 700)]);
}

#[test]
fn no_stairs_asked_never_fails() {
    let mut g = grid_of(&["xxx"]);
    let mut rng = StdRng::seed_from_u64(1);
    assert_eq!(add_stairs(&mut g, 0, 0, &mut rng), Ok((vec![], vec![])));
}

#[test]
fn appearance_by_style() {
    let level = level_of(&["x.", "xx"]);
    assert_eq!(level.appearance(1, 0, DrawStyle::Undiscovered), None);
    assert_eq!(level.appearance(1, 0, DrawStyle::Discovered), Some(('.', Color::Red)));
    assert_eq!(level.appearance(0, 0, DrawStyle::Visible), Some(('|', Color::White)));
    assert_eq!(level.appearance(0, 1, DrawStyle::Visible), Some(('+', Color::White)));
}

#[test]
fn draw_style_prefers_sight_then_memory() {
    let level = level_of(&["..x..", "....."]);
    let mut known = vec![vec![false; 5]; 2];
    known[0][4] = true;
    assert_eq!(level.draw_style(&known, (0, 0), (1, 0)), DrawStyle::Visible);
    assert_eq!(level.draw_style(&known, (0, 0), (4, 0)), DrawStyle::Discovered);
    assert_eq!(level.draw_style(&known, (0, 0), (3, 0)), DrawStyle::Undiscovered);
    assert_eq!(level.draw_style(&known, (0, 0), (9, 9)), DrawStyle::Undiscovered);
}

#[test]
fn color_support_checks_in_order() {
    assert_eq!(check_color_support(false, 256, 256), Err(ColorError::NoColors));
    assert_eq!(check_color_support(true, 4, 2), Err(ColorError::NotEnoughColors(4)));
    assert_eq!(check_color_support(true, 8, 7), Err(ColorError::NotEnoughSlots(7)));
    assert_eq!(check_color_support(true, 8, 8), Ok(()));
}

#[test]
fn join_rooms_takes_the_cheapest_route_and_carves_it() {
    let mut tiles = grid_of(&["x.x", "xxx"]);
    let weights = Grid::from_vec(vec![400, 400, 1500, 400, 400, 400], 3);
    let path = join_rooms(&mut tiles, &weights, (0, 0), (2, 1));
    assert_eq!(path, vec![(0, 0), (1, 0), (1, 1), (2, 1)]);
    let expected = grid_of(&["#.x", "x##"]);
    assert!(tiles == expected);
}

#[test]
fn join_rooms_prefers_open_cells() {
    let mut tiles = grid_of(&["x.x", "xxx"]);
    let weights = Grid::from_vec(vec![400, 400, 1500, 400, 400, 400], 3);
    let path = join_rooms(&mut tiles, &weights, (0, 0), (2, 0));
    assert_eq!(path, vec![(0, 0), (1, 0), (2, 0)]);
    assert!(tiles == grid_of(&["#.#", "xxx"]));
}

#[test]
fn floor_cell_only_on_floor() {
    let g = grid_of(&[".#<", "x.."]);
    assert_eq!(floor_cell(&g, 0, 0), Some((0, 0)));
    assert_eq!(floor_cell(&g, 2, 1), Some((2, 1)));
    assert_eq!(floor_cell(&g, 1, 0), None);
    assert_eq!(floor_cell(&g, 2, 0), None);
    assert_eq!(floor_cell(&g, 0, 1), None);
    assert_eq!(floor_cell(&g, 5, 5), None);
}

#[test]
fn stairs_change_exactly_the_listed_cells() {
    let mut g = grid_of(&["xxxxxx", "x....x", "x....x", "xxxxxx"]);
    let before = g.clone();
    let mut rng = StdRng::seed_from_u64(11);
    let (up, down) = add_stairs(&mut g, 2, 3, &mut rng).unwrap();
    let mut listed: Vec<(i32, i32)> = up.clone();
    listed.extend(down.iter().copied());
    for y in 0..4 {
        for x in 0..6 {
            let changed = g[(y, x)] != before[(y, x)];
            assert_eq!(changed, listed.contains(&(x as i32, y as i32)));
        }
    }
    for p in listed {
        assert_eq!(before[(p.1 as usize, p.0 as usize)], Floor);
    }
}

#[test]
fn no_stairs_never_fail_to_generate() {
    for seed in 0..5u64 {
        let mut rng = StdRng::seed_from_u64(seed);
        assert!(generate(0, (15, 15), &mut rng, 0, 0).is_ok());
        assert!(generate(10, (30, 12), &mut rng, 0, 0).is_ok());
    }
}
