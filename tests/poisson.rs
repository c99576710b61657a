use aitios::aabb::Point3;
use aitios::poisson::PoissonSet;

fn p(x: i32, y: i32, z: i32) -> Point3 {
    Point3 { x, y, z }
}

#[test]
fn points_closer_than_the_minimum_are_rejected() {
    let mut set = PoissonSet::new(10);
    assert!(set.try_insert(p(0, 0, 0)));
    assert!(!set.try_insert(p(9, 0, 0)));
    assert!(!set.try_insert(p(6, 6, 5)));
    assert!(set.try_insert(p(10, 0, 0)));
    assert!(set.try_insert(p(6, 8, 0)) == false);
    assert!(set.try_insert(p(0, 0, -10)));
    assert_eq!(set.len(), 3);
    assert_eq!(set.point(1), p(10, 0, 0));
    assert!(set.has_neighbor_in_range(&p(5, 0, 0)));
    assert!(!set.has_neighbor_in_range(&p(20, 20, 20)));
}

#[test]
fn accepted_points_keep_the_minimum_distance() {
    let mut set = PoissonSet::new(7);
    let mut seed: u64 = 99;
    for _ in 0..3000 {
        seed = seed.wrapping_mul(6364136223846793005).wrapping_add(1442695040888963407);
        let x = ((seed >> 33) % 200) as i32 - 100;
        let z = ((seed >> 13) % 200) as i32 - 100;
        set.try_insert(p(x, 0, z));
    }
    assert!(set.len() > 50);
    for i in 0..set.len() {
        for j in 0..set.len() {
            if i != j {
                let a = set.point(i);
                let b = set.point(j);
                let d = ((a.x - b.x).pow(2) + (a.y - b.y).pow(2) + (a.z - b.z).pow(2)) as i64;
                assert!(d >= 49);
            }
        }
    }
}

#[test]
fn zero_minimum_accepts_everything() {
    let mut set = PoissonSet::new(0);
    assert!(set.try_insert(p(1, 1, 1)));
    assert!(set.try_insert(p(1, 1, 1)));
    assert_eq!(set.len(), 2);
}

#[test]
fn extreme_coordinates_do_not_overflow() {
    let mut set = PoissonSet::new(u32::MAX);
    assert!(set.try_insert(p(i32::MIN, i32::MIN, i32::MIN)));
    assert!(set.try_insert(p(i32::MAX, i32::MAX, i32::MAX)));
    assert!(!set.try_insert(p(i32::MAX, i32::MAX, 0)));
    assert_eq!(set.len(), 2);
}
