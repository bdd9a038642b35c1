use rand::rngs::StdRng;
use rand::SeedableRng;
use roguelike::hallways::route_estimate;
use roguelike::rooms::{
    consider_room, far_from_all, RoomBounds, ROOM_MARGIN, ROOM_MIN_DISTANCE, ROOM_SIZE_END, ROOM_SIZE_MIN,
};

fn room(x: usize, y: usize, w: usize, h: usize) -> RoomBounds {
    RoomBounds { ul_corner: (x, y), size: (w, h) }
}

#[test]
fn tiles_row_by_row() {
    let r = room(2, 3, 2, 2);
    assert_eq!(r.tiles(), vec![(2, 3), (3, 3), (2, 4), (3, 4)]);
}

#[test]
fn tiles_of_empty_room() {
    assert!(room(2, 3, 0, 4).tiles().is_empty());
}

#[test]
fn intersects_overlapping_and_touching() {
    let a = room(0, 0, 4, 4);
    assert!(a.intersects(&room(3, 3, 4, 4)));
    assert!(!a.intersects(&room(4, 0, 4, 4)));
    assert!(!a.intersects(&room(0, 4, 4, 4)));
    assert!(room(3, 3, 4, 4).intersects(&a));
}

#[test]
fn near_within_distance() {
    let a = room(0, 0, 4, 4);
    assert!(a.near(&room(7, 0, 4, 4), 4));
    assert!(!a.near(&room(8, 0, 4, 4), 4));
    assert!(room(8, 0, 4, 4).near(&room(0, 0, 4, 4), 5));
}

#[test]
fn center_rounds_toward_lower_right() {
    assert_eq!(room(2, 3, 4, 5).center(), (4, 5));
    assert_eq!(room(0, 0, 7, 6).center(), (3, 3));
}

#[test]
fn estimate_is_manhattan_times_room_weight() {
    assert_eq!(route_estimate((1, 2), (4, 0)), 1000);
    assert_eq!(route_estimate((4, 4), (4, 4)), 0);
}

#[test]
fn generated_rooms_are_placed_and_spread() {
    for seed in 0..20u64 {
        let mut rng = StdRng::seed_from_u64(seed);
        let rooms = RoomBounds::generate(100, (80, 24), &mut rng);
        assert!(rooms.len() <= 100);
        assert!(!rooms.is_empty());
        for r in rooms.iter() {
            assert!(r.size.0 >= ROOM_SIZE_MIN && r.size.0 < ROOM_SIZE_END);
            assert!(r.size.1 >= ROOM_SIZE_MIN && r.size.1 < ROOM_SIZE_END);
            assert!(r.ul_corner.0 >= ROOM_MARGIN && r.ul_corner.0 + r.size.0 + ROOM_MARGIN < 80);
            assert!(r.ul_corner.1 >= ROOM_MARGIN && r.ul_corner.1 + r.size.1 + ROOM_MARGIN < 24);
        }
        for i in 0..rooms.len() {
            for j in 0..rooms.len() {
                if i != j {
                    assert!(!rooms[i].near(&rooms[j], ROOM_MIN_DISTANCE));
                }
            }
        }
    }
}

#[test]
fn generate_in_too_small_region_keeps_no_room() {
    let mut rng = StdRng::seed_from_u64(1);
    assert!(RoomBounds::generate(10, (8, 8), &mut rng).is_empty());
}

#[test]
fn far_from_all_checks_every_kept_room() {
    let kept = vec![room(2, 2, 4, 4), room(20, 2, 4, 4)];
    assert!(far_from_all(&kept, &room(11, 2, 4, 4)));
    assert!(!far_from_all(&kept, &room(9, 2, 4, 4)));
    assert!(!far_from_all(&kept, &room(27, 2, 4, 4)));
    assert!(far_from_all(&vec![], &room(0, 0, 4, 4)));
}

#[test]
fn first_attempt_is_always_kept() {
    for seed in 0..50u64 {
        let mut rng = StdRng::seed_from_u64(seed);
        assert_eq!(RoomBounds::generate(1, (12, 12), &mut rng).len(), 1);
    }
}

#[test]
fn consider_room_keeps_only_placed_and_far_rooms() {
    let mut kept = vec![room(2, 2, 4, 4)];
    consider_room(&mut kept, room(11, 2, 4, 4), (40, 20));
    assert_eq!(kept.len(), 2);
    consider_room(&mut kept, room(9, 2, 4, 4), (40, 20));
    assert_eq!(kept.len(), 2);
    consider_room(&mut kept, room(30, 12, 4, 4), (40, 20));
    assert_eq!(kept.len(), 3);
    // Too close to the edge: its far side must stay ROOM_MARGIN cells inside.
    consider_room(&mut kept, room(34, 2, 4, 4), (40, 20));
    assert_eq!(kept.len(), 3);
    // Too large.
    consider_room(&mut kept, room(20, 2, 8, 4), (40, 20));
    assert_eq!(kept.len(), 3);
    // Against the top margin.
    consider_room(&mut kept, room(20, 1, 4, 4), (40, 20));
    assert_eq!(kept.len(), 3);
    assert_eq!(kept[2].ul_corner, (30, 12));
}
