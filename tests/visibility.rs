use roguelike::visibility::{visible, CellVisibility, Lighting};

fn open(_p: (i32, i32)) -> CellVisibility {
    CellVisibility::Transparent
}

fn lit(_p: (i32, i32)) -> Lighting {
    Lighting::Lit
}

#[test]
fn line_horizontal_excludes_end() {
    assert_eq!(roguelike::visibility::line((0, 0), (3, 0)), vec![(0, 0), (1, 0), (2, 0)]);
}

#[test]
fn line_to_itself_is_empty() {
    assert_eq!(roguelike::visibility::line((4, 7), (4, 7)), Vec::<(i32, i32)>::new());
}

#[test]
fn line_shallow_slope_aims_at_near_corner() {
    assert_eq!(roguelike::visibility::line((0, 0), (3, 1)), vec![(0, 0), (1, 0), (2, 0)]);
}

#[test]
fn line_diagonal() {
    assert_eq!(roguelike::visibility::line((0, 0), (2, 2)), vec![(0, 0), (1, 1)]);
}

#[test]
fn line_steep_is_transposed() {
    assert_eq!(roguelike::visibility::line((0, 0), (1, 3)), vec![(0, 0), (0, 1), (0, 2)]);
}

#[test]
fn line_right_to_left_is_mirrored() {
    assert_eq!(roguelike::visibility::line((3, 0), (0, 0)), vec![(3, 0), (2, 0), (1, 0)]);
}

#[test]
fn line_upward_rounds_toward_zero() {
    assert_eq!(roguelike::visibility::line((0, 0), (5, -3)), vec![(0, 0), (1, 0), (2, 0), (3, -1), (4, -1)]);
}

#[test]
fn line_from_offset_origin() {
    assert_eq!(roguelike::visibility::line((10, 5), (14, 7)), vec![(10, 5), (11, 5), (12, 6), (13, 6)]);
}

#[test]
fn cell_sees_itself_when_lit() {
    assert!(visible((3, 3), (3, 3), Some(1), |_| CellVisibility::Blocking, lit));
    assert!(visible((3, 3), (3, 3), None, |_| CellVisibility::Blocking, lit));
}

#[test]
fn dark_cell_is_not_visible() {
    assert!(!visible((3, 3), (3, 3), None, open, |_| Lighting::Dark));
    assert!(!visible((0, 0), (2, 0), Some(5), open, |p| if p == (2, 0) { Lighting::Dark } else { Lighting::Lit }));
}

#[test]
fn radius_is_strict() {
    assert!(visible((0, 0), (3, 4), Some(6), open, lit));
    assert!(!visible((0, 0), (3, 4), Some(5), open, lit));
    assert!(!visible((0, 0), (0, 0), Some(0), open, lit));
}

#[test]
fn blocking_cell_between_hides_target() {
    let wall = |p: (i32, i32)| if p == (2, 0) { CellVisibility::Blocking } else { CellVisibility::Transparent };
    assert!(!visible((0, 0), (4, 0), None, wall, lit));
    assert!(visible((0, 0), (2, 0), None, wall, lit));
    assert!(visible((0, 0), (1, 0), None, wall, lit));
}

#[test]
fn blocking_origin_hides_everything_else() {
    let wall = |p: (i32, i32)| if p == (0, 0) { CellVisibility::Blocking } else { CellVisibility::Transparent };
    assert!(!visible((0, 0), (1, 0), None, wall, lit));
}
