use aitios::aabb::{Aabb, Point3};
use aitios::octree::Spatial;
use aitios::tri::{GeomError, Triangle};

fn p(x: i32, y: i32, z: i32) -> Point3 {
    Point3 { x, y, z }
}

fn example() -> Triangle {
    Triangle::new(p(-1, -1, 100), p(1, -1, 100), p(0, 1, 200))
}

/// The hit point `o + d * t / den`, where it lies on the grid.
fn point_at(o: Point3, d: Point3, t: i128, den: i128) -> Option<Point3> {
    let coord = |o: i32, d: i32| {
        let n = o as i128 * den + d as i128 * t;
        if n % den == 0 {
            Some((n / den) as i32)
        } else {
            None
        }
    };
    Some(p(coord(o.x, d.x)?, coord(o.y, d.y)?, coord(o.z, d.z)?))
}

#[test]
fn intersect_ray_with_tri() {
    let ray_origin = p(0, 0, 0);
    let ray_direction = p(0, 0, 1);
    let tri = example();

    let (t, den) = tri.ray_intersection_parameter(ray_origin, ray_direction).unwrap();
    assert!(t > 0 && den > 0);
    assert_eq!(point_at(ray_origin, ray_direction, t, den), Some(p(0, 0, 150)));
}

#[test]
fn intersect_ray_with_tri_and_miss() {
    let ray_origin = p(0, 0, 0);
    let ray_direction = p(0, 0, -1);
    let tri = example();

    assert_eq!(tri.ray_intersection_parameter(ray_origin, ray_direction), None);
}

#[test]
fn ray_parallel_to_the_plane_misses() {
    let tri = Triangle::new(p(0, 0, 0), p(10, 0, 0), p(0, 0, 10));
    assert_eq!(tri.ray_intersection_parameter(p(1, 5, 1), p(1, 0, 0)), None);
}

#[test]
fn ray_beside_the_triangle_misses() {
    let tri = Triangle::new(p(0, 0, 0), p(10, 0, 0), p(0, 0, 10));
    assert_eq!(tri.ray_intersection_parameter(p(8, 5, 8), p(0, -1, 0)), None);
    let (t, den) = tri.ray_intersection_parameter(p(2, 5, 2), p(0, -1, 0)).unwrap();
    assert_eq!(point_at(p(2, 5, 2), p(0, -1, 0), t, den), Some(p(2, 0, 2)));
}

#[test]
fn ray_hits_an_edge() {
    let tri = Triangle::new(p(0, 0, 0), p(10, 0, 0), p(0, 0, 10));
    let (t, den) = tri.ray_intersection_parameter(p(5, 3, 5), p(0, -1, 0)).unwrap();
    assert_eq!(point_at(p(5, 3, 5), p(0, -1, 0), t, den), Some(p(5, 0, 5)));
}

#[test]
fn triangle_bounds() {
    let b = example().bounds();
    assert_eq!(b, Aabb { min: p(-1, -1, 100), max: p(1, 1, 200) });
}

fn cross_of(t: &Triangle) -> (i64, i64, i64) {
    let [a, b, c] = t.vertices;
    let e1 = ((b.x - a.x) as i64, (b.y - a.y) as i64, (b.z - a.z) as i64);
    let e2 = ((c.x - a.x) as i64, (c.y - a.y) as i64, (c.z - a.z) as i64);
    (e1.1 * e2.2 - e1.2 * e2.1, e1.2 * e2.0 - e1.0 * e2.2, e1.0 * e2.1 - e1.1 * e2.0)
}

fn area_of(t: &Triangle, grid: f64) -> f64 {
    let (x, y, z) = cross_of(t);
    0.5 * ((x * x + y * y + z * z) as f64).sqrt() / (grid * grid)
}

#[test]
fn split_parts_keep_the_vector_area() {
    let tri = Triangle::new(p(-7, 3, 1), p(5, -2, 9), p(11, 13, -4));
    let parts = tri.split_at_edge_midpoints();

    assert_eq!(parts[0].vertices, [p(-2, 1, 10), p(16, 11, 5), p(4, 16, -3)]);
    assert_eq!(parts[1].vertices, [p(-2, 1, 10), p(10, -4, 18), p(16, 11, 5)]);
    assert_eq!(parts[2].vertices, [p(16, 11, 5), p(22, 26, -8), p(4, 16, -3)]);
    assert_eq!(parts[3].vertices, [p(4, 16, -3), p(-14, 6, 2), p(-2, 1, 10)]);

    for part in parts.iter() {
        assert_eq!(cross_of(part), cross_of(&tri));
    }
    let sum: f64 = parts.iter().map(|t| area_of(t, 2.0)).sum();
    assert!((sum - area_of(&tri, 1.0)).abs() < 1e-9);
}

#[test]
fn test_splitting_at_edge_midpoints() {
    // A triangle around the origin
    let tri = Triangle::new(p(-1, -1, 0), p(1, -1, 0), p(0, 1, 0));

    // The parts lie on the grid twice as fine.
    let triangles = tri.split_at_edge_midpoints();
    assert_eq!(4, triangles.len());

    // Three triangles should contain each edge midpoint as a vertex
    for midpoint in [p(-1, 0, 0), p(1, 0, 0), p(0, -2, 0)].iter() {
        assert_eq!(3, triangles.iter().filter(|t| t.vertices.iter().any(|v| v == midpoint)).count());
    }

    let subdivided_tris_area_sum: f64 = triangles.iter().map(|t| area_of(t, 2.0)).sum();
    let source_tri_area = area_of(&tri, 1.0);
    assert_eq!(source_tri_area, 2.0); // (width * height) / 2, given width = 2, height = 2
    assert_eq!(subdivided_tris_area_sum, source_tri_area);
}

fn unit(v: (i128, i128, i128)) -> (f64, f64, f64) {
    let l = ((v.0 * v.0 + v.1 * v.1 + v.2 * v.2) as f64).sqrt();
    (v.0 as f64 / l, v.1 as f64 / l, v.2 as f64 / l)
}

#[test]
fn test_calculate_face_normal_from_positions() {
    // ccw on X/Z-Plane, normal should point in positive Y direction
    let tri = Triangle::new(p(-1, 0, 1), p(1, 0, 1), p(0, 0, -1));

    let (tangent, binormal, normal) = tri.tangent_space().unwrap();
    assert_eq!((0.0, 1.0, 0.0), unit(normal));
    assert_eq!((1.0, 0.0, 0.0), unit(tangent));
    assert_eq!((0.0, 0.0, -1.0), unit(binormal));

    // cw, normal should point down
    let tri = Triangle::new(p(1, 0, 1), p(-1, 0, 1), p(0, 0, -1));

    let (_, _, normal) = tri.tangent_space().unwrap();
    assert_eq!((0.0, -1.0, 0.0), unit(normal));
}

#[test]
fn zero_area_triangle_has_no_tangent_space() {
    let tri = Triangle::new(p(-1, 0, 1), p(1, 0, 1), p(1, 0, 1));
    assert_eq!(tri.tangent_space(), Err(GeomError::DegenerateTriangle));
    let collinear = Triangle::new(p(0, 0, 0), p(1, 1, 1), p(3, 3, 3));
    assert_eq!(collinear.tangent_space(), Err(GeomError::DegenerateTriangle));
}
