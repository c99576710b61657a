use aitios::aabb::{Aabb, Point3, GRID_MAX, GRID_MIN, KEY_SCALE};

fn p(x: i32, y: i32, z: i32) -> Point3 {
    Point3 { x, y, z }
}

#[test]
fn test_aabb_from_points_empty() {
    let aabb = Aabb::from_points(&Vec::new());

    assert_eq!(aabb.min.x, GRID_MAX, "Expected infinite AABB from empty points");
    assert_eq!(aabb.min.y, GRID_MAX, "Expected infinite AABB from empty points");
    assert_eq!(aabb.min.z, GRID_MAX, "Expected infinite AABB from empty points");

    assert_eq!(aabb.max.x, GRID_MIN, "Expected infinite AABB from empty points");
    assert_eq!(aabb.max.y, GRID_MIN, "Expected infinite AABB from empty points");
    assert_eq!(aabb.max.z, GRID_MIN, "Expected infinite AABB from empty points");
}

#[test]
fn test_aabb_from_single_point() {
    let point = p(1, 2, 3);
    let aabb = Aabb::from_points(&vec![point]);

    assert_eq!(aabb.min, point, "Built AABB from single point {:?} and expected min to be equal, but was {:?}", point, aabb.min);
    assert_eq!(aabb.max, point, "Built AABB from single point {:?} and expected max to be equal, but was {:?}", point, aabb.max);
}

#[test]
fn test_aabb_from_points_triangle() {
    let aabb = Aabb::from_points(&vec![p(-5, -5, 10), p(5, -5, 10), p(0, 5, -10)]);

    assert_eq!(aabb.min, p(-5, -5, -10));
    assert_eq!(aabb.max, p(5, 5, 10));
}

#[test]
fn test_inside() {
    let aabb = Aabb::from_points(&vec![p(-5, -5, 10), p(5, -5, 10), p(0, 5, -10)]);

    assert!(aabb.is_point_inside(&p(0, 0, 0)));
    assert!(!aabb.is_point_inside(&p(100, 0, 0)));

    let other_aabb = Aabb { min: p(-1, -1, -1), max: p(1, 1, 1) };
    assert!(aabb.is_aabb_inside(&other_aabb));

    let other_aabb = Aabb { min: p(999, -1, -1), max: p(1001, 1, 1) };
    assert!(!aabb.is_aabb_inside(&other_aabb));
}

#[test]
fn union_of_nothing_is_the_empty_box() {
    let u = Aabb::union(&Vec::new());
    assert_eq!(u, Aabb::empty());
    assert_eq!(u.min, p(GRID_MAX, GRID_MAX, GRID_MAX));
    assert_eq!(u.max, p(GRID_MIN, GRID_MIN, GRID_MIN));
}

#[test]
fn union_with_the_empty_box_keeps_the_box() {
    let a = Aabb { min: p(-3, 4, -7), max: p(2, 9, 0) };
    assert_eq!(Aabb::union(&vec![a, Aabb::empty()]), a);
    assert_eq!(Aabb::union(&vec![Aabb::empty(), a]), a);
    assert_eq!(a.join(&Aabb::empty()), a);
    assert_eq!(Aabb::empty().join(&a), a);
}

#[test]
fn union_encloses_all_boxes() {
    let a = Aabb { min: p(0, 0, 0), max: p(1, 1, 1) };
    let b = Aabb { min: p(-2, 3, 0), max: p(0, 4, 5) };
    let u = Aabb::union(&vec![a, b]);
    assert_eq!(u, Aabb { min: p(-2, 0, 0), max: p(1, 4, 5) });
}

#[test]
fn volume_of_boxes() {
    let a = Aabb { min: p(0, 0, 0), max: p(2, 3, 4) };
    assert_eq!(a.volume(), 24);
    let flat = Aabb { min: p(0, 0, 0), max: p(2, 0, 4) };
    assert_eq!(flat.volume(), 0);
    let e = Aabb::empty();
    let d: i128 = GRID_MIN as i128 - GRID_MAX as i128;
    assert_eq!(e.volume(), d * d * d);
    assert!(e.volume() < 0);
}

#[test]
fn octants_bisect_at_the_center() {
    let a = Aabb { min: p(0, 0, 0), max: p(10, 20, 30) };
    assert!(a.is_divisible());
    let o = a.octants();
    assert_eq!(o.len(), 8);
    assert_eq!(o[0], Aabb { min: p(0, 0, 0), max: p(5, 10, 15) });
    assert_eq!(o[1], Aabb { min: p(5, 0, 0), max: p(10, 10, 15) });
    assert_eq!(o[2], Aabb { min: p(5, 0, 15), max: p(10, 10, 30) });
    assert_eq!(o[3], Aabb { min: p(0, 0, 15), max: p(5, 10, 30) });
    assert_eq!(o[4], Aabb { min: p(0, 10, 0), max: p(5, 20, 15) });
    assert_eq!(o[5], Aabb { min: p(5, 10, 0), max: p(10, 20, 15) });
    assert_eq!(o[6], Aabb { min: p(5, 10, 15), max: p(10, 20, 30) });
    assert_eq!(o[7], Aabb { min: p(0, 10, 15), max: p(5, 20, 30) });
    assert!(!Aabb { min: p(0, 0, 0), max: p(1, 5, 5) }.is_divisible());
}

#[test]
fn ray_entry_into_boxes() {
    let b = Aabb { min: p(-1, -1, -1), max: p(1, 1, 1) };
    // from above, straight down: enters at t = 99
    assert_eq!(b.ray_entry(p(0, 100, 0), p(0, -1, 0)), Some((99, 1)));
    // a slanted ray enters at the fraction 7/2
    let (n, den) = b.ray_entry(p(-8, 0, 0), p(2, 0, 0)).unwrap();
    assert_eq!(n * 2, 7 * den);
    // starting inside: t = 0
    let (n, _) = b.ray_entry(p(0, 0, 0), p(5, 3, 1)).unwrap();
    assert_eq!(n, 0);
    // pointing away, and passing beside
    assert_eq!(b.ray_entry(p(0, 100, 0), p(0, 1, 0)), None);
    assert_eq!(b.ray_entry(p(5, 100, 0), p(0, -1, 0)), None);
    // a ray that runs along the box's plane outside of it
    assert_eq!(b.ray_entry(p(-5, 2, 0), p(1, 0, 0)), None);
    // grazing an edge
    let (n, den) = b.ray_entry(p(-5, 1, 0), p(1, 0, 0)).unwrap();
    assert_eq!(n, 4 * den);
}

#[test]
fn ray_keys_scale_the_entry() {
    let b = Aabb { min: p(-1, -1, -1), max: p(1, 1, 1) };
    assert_eq!(b.ray_key(p(0, 100, 0), p(0, -1, 0)), Some(99 * KEY_SCALE));
    assert_eq!(b.ray_key(p(-8, 0, 0), p(2, 0, 0)), Some(7 * KEY_SCALE / 2));
    // one third, rounded down
    assert_eq!(b.ray_key(p(-4, 0, 0), p(9, 0, 0)), Some(KEY_SCALE / 3));
    assert_eq!(b.ray_key(p(0, 100, 0), p(0, 1, 0)), None);
}
