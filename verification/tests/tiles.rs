use fed::state::WindowId;
use fed::tiles::{navigate_from, window_at};
use fed::types::{Direction, Pos, Rect};

fn r(x: usize, y: usize, w: usize, h: usize) -> Rect {
    Rect::new(Pos::new(x, y), w, h)
}

#[test]
fn rect_geometry() {
    let a = r(2, 3, 4, 5);
    assert!(a.contains(Pos::new(2, 3)));
    assert!(a.contains(Pos::new(5, 7)));
    assert!(!a.contains(Pos::new(6, 7)));
    assert!(!a.contains(Pos::new(1, 3)));
    assert_eq!(a.intersects(&r(5, 20, 3, 1)), (true, false));
    assert_eq!(a.intersects(&r(6, 4, 3, 1)), (false, true));
    assert_eq!(a.distance(&r(0, 10, 1, 1)), 9);
}

#[test]
fn topmost_window_at_a_position() {
    let tiles = vec![(WindowId(0), r(0, 0, 10, 10)), (WindowId(1), r(10, 0, 10, 10))];
    let floating = vec![(WindowId(5), r(5, 5, 10, 2)), (WindowId(6), r(8, 5, 2, 2))];
    assert_eq!(window_at(&floating, &tiles, Pos::new(9, 6)), Some(WindowId(6)));
    assert_eq!(window_at(&floating, &tiles, Pos::new(6, 6)), Some(WindowId(5)));
    assert_eq!(window_at(&floating, &tiles, Pos::new(12, 1)), Some(WindowId(1)));
    assert_eq!(window_at(&floating, &tiles, Pos::new(30, 1)), None);
}

#[test]
fn navigation_picks_the_nearest_tile_that_way() {
    // [0][1]
    // [2][3]
    let tiles = vec![
        (WindowId(0), r(0, 0, 10, 5)),
        (WindowId(1), r(10, 0, 10, 5)),
        (WindowId(2), r(0, 5, 10, 5)),
        (WindowId(3), r(10, 5, 10, 5)),
    ];
    assert_eq!(navigate_from(&tiles, WindowId(0), Direction::Right), Some(WindowId(1)));
    assert_eq!(navigate_from(&tiles, WindowId(0), Direction::Down), Some(WindowId(2)));
    assert_eq!(navigate_from(&tiles, WindowId(0), Direction::Left), None);
    assert_eq!(navigate_from(&tiles, WindowId(3), Direction::Up), Some(WindowId(1)));
    assert_eq!(navigate_from(&tiles, WindowId(9), Direction::Up), None);
}
