use rigid_sim::cube::{corner_signs, cube_segments};
use rigid_sim::mouse::{MouseEvent, PointerState};
use rigid_sim::raster::{pixel_index, HEIGHT, WIDTH};
use rigid_sim::shape::{contact_kind, ContactKind, LineKind, Shape};

#[test]
fn corner_signs_follow_the_bits() {
    assert_eq!(corner_signs(0), (false, false, false));
    assert_eq!(corner_signs(1), (true, false, false));
    assert_eq!(corner_signs(2), (false, true, false));
    assert_eq!(corner_signs(5), (true, false, true));
    assert_eq!(corner_signs(7), (true, true, true));
    let mut all: Vec<(bool, bool, bool)> = (0..8).map(corner_signs).collect();
    all.sort();
    all.dedup();
    assert_eq!(all.len(), 8);
}

#[test]
fn cube_segments_are_the_power_of_two_gaps() {
    let expected = vec![
        (0, 1), (0, 2), (0, 4), (1, 2), (1, 3), (1, 5), (2, 3), (2, 4), (2, 6),
        (3, 4), (3, 5), (3, 7), (4, 5), (4, 6), (5, 6), (5, 7), (6, 7),
    ];
    assert_eq!(cube_segments(), expected);
}

#[test]
fn cube_segments_cover_every_edge() {
    let segs = cube_segments();
    let mut edges = 0;
    for i in 0..8usize {
        for j in i + 1..8usize {
            if (i ^ j).count_ones() == 1 {
                edges += 1;
                assert!(segs.contains(&(i, j)));
            }
        }
    }
    assert_eq!(edges, 12);
}

#[test]
fn contact_kind_table() {
    assert_eq!(contact_kind(Shape::Sphere, Shape::Sphere), Some(ContactKind::Spheres));
    assert_eq!(contact_kind(Shape::Cube, Shape::Cube), Some(ContactKind::Cubes));
    assert_eq!(contact_kind(Shape::Sphere, Shape::Cube), None);
    assert_eq!(contact_kind(Shape::Cube, Shape::Sphere), None);
}

#[test]
fn line_kinds_apply() {
    // (at_least, at_most) for a distance shorter, equal and longer than the rest length
    let shorter = (false, true);
    let equal = (true, true);
    let longer = (true, false);
    for &(a, b) in &[shorter, equal, longer] {
        assert!(LineKind::Exact.applies(a, b));
    }
    assert!(LineKind::Min.applies(shorter.0, shorter.1));
    assert!(!LineKind::Min.applies(equal.0, equal.1));
    assert!(!LineKind::Min.applies(longer.0, longer.1));
    assert!(!LineKind::Max.applies(shorter.0, shorter.1));
    assert!(!LineKind::Max.applies(equal.0, equal.1));
    assert!(LineKind::Max.applies(longer.0, longer.1));
    // an unordered comparison (NaN distance) lets both bounds act
    assert!(LineKind::Min.applies(false, false));
    assert!(LineKind::Max.applies(false, false));
}

#[test]
fn pixel_index_inside_and_outside() {
    assert_eq!(pixel_index(0, 0), Some(0));
    assert_eq!(pixel_index(5, 2), Some(2 * 1280 + 5));
    assert_eq!(pixel_index(WIDTH as i32 - 1, HEIGHT as i32 - 1), Some((WIDTH * HEIGHT - 1) as usize));
    assert_eq!(pixel_index(-1, 0), None);
    assert_eq!(pixel_index(0, -1), None);
    assert_eq!(pixel_index(WIDTH as i32, 0), None);
    assert_eq!(pixel_index(0, HEIGHT as i32), None);
}

#[test]
fn pixel_slots_are_distinct() {
    let a = pixel_index(1279, 0).unwrap();
    let b = pixel_index(0, 1).unwrap();
    assert_ne!(a, b);
    assert_eq!(a + 1, b);
    assert!(3 * pixel_index(1279, 959).unwrap() + 2 < 4 * (WIDTH * HEIGHT) as usize);
}

#[test]
fn pointer_starts_centred() {
    let s = PointerState::new();
    assert_eq!(s, PointerState { down: false, x: 640, y: 480 });
}

#[test]
fn pointer_follows_events() {
    let mut s = PointerState::new();
    s.apply(MouseEvent::Motion { left_pressed: false, x: 10, y: 20 });
    assert_eq!(s, PointerState { down: false, x: 10, y: 20 });
    s.apply(MouseEvent::ButtonDown { left: false, x: 11, y: 21 });
    assert_eq!(s, PointerState { down: false, x: 11, y: 21 });
    s.apply(MouseEvent::ButtonDown { left: true, x: 12, y: 22 });
    assert_eq!(s, PointerState { down: true, x: 12, y: 22 });
    s.apply(MouseEvent::Other);
    assert_eq!(s, PointerState { down: true, x: 12, y: 22 });
    // releasing the left button leaves it marked down
    s.apply(MouseEvent::ButtonUp { left: true, x: 13, y: 23 });
    assert_eq!(s, PointerState { down: true, x: 13, y: 23 });
    s.apply(MouseEvent::Motion { left_pressed: false, x: 14, y: 24 });
    assert_eq!(s, PointerState { down: false, x: 14, y: 24 });
}

#[test]
fn pointer_apply_all_in_order() {
    let mut s = PointerState::new();
    s.apply_all(&[
        MouseEvent::ButtonDown { left: true, x: 1, y: 2 },
        MouseEvent::Other,
        MouseEvent::ButtonUp { left: false, x: 3, y: 4 },
    ]);
    assert_eq!(s, PointerState { down: true, x: 3, y: 4 });
    s.apply_all(&[]);
    assert_eq!(s, PointerState { down: true, x: 3, y: 4 });
}
