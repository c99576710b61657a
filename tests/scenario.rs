use aitios::aabb::{Aabb, Point3};
use aitios::octree::{Octree, Spatial};
use aitios::ton::{interact, Motion, Surface, Surfel, Ton, UNIT};
use aitios::tri::Triangle;

fn p(x: i32, y: i32, z: i32) -> Point3 {
    Point3 { x, y, z }
}

fn slab(b: &Aabb, o: Point3, d: Point3) -> Option<f64> {
    b.ray_entry(o, d).map(|(n, den)| n as f64 / den as f64)
}

fn first_hit(tree: &Octree<Triangle>, o: Point3, d: Point3) -> Option<f64> {
    let enters = |b: &Aabb| slab(b, o, d).map(|t| t.to_bits());
    let hits = |t: &Triangle| t.ray_intersection_parameter(o, d).map(|(n, den)| (n as f64 / den as f64).to_bits());
    tree.ray_intersection_target_and_parameter(&enters, &hits).map(|(_, k)| f64::from_bits(k))
}

#[test]
fn point_source_above_a_flat_floor() {
    let floor = Triangle::new(p(-1000, 0, -1000), p(0, 0, 1000), p(1000, 0, -1000));
    let footprint = floor.bounds();
    let tree = Octree::from_elements(vec![Triangle::new(p(-1000, 0, -1000), p(0, 0, 1000), p(1000, 0, -1000))]);

    let mut samples = Vec::new();
    let mut positions = Vec::new();
    for x in (-1000..=1000).step_by(50) {
        for z in (-1000..=1000).step_by(50) {
            if floor.ray_intersection_parameter(p(x, 10, z), p(0, -1, 0)).is_some() {
                positions.push((x as f64, z as f64));
                samples.push(Surfel {
                    position: p(x, 0, z),
                    normal: Point3 { x: 0, y: 1, z: 0 },
                    texcoords: (0, 0),
                    entity_idx: 0,
                    substances: vec![UNIT / 2],
                    deposition_rates: vec![UNIT / 2],
                    delta_straight: UNIT / 10,
                    delta_parabolic: 0,
                    delta_flow: 0,
                });
            }
        }
    }
    assert!(samples.len() > 100);
    let mut surface = Surface { samples };

    let source = p(0, 1000, 0);
    let mut seed: u64 = 12345;
    let mut interactions = 0;
    let mut settled_outside = 0;
    for i in 0..1000 {
        let d = p((i % 40) * 10 - 200, -1000, (i / 40) * 10 - 125);
        let t = first_hit(&tree, source, d).expect("every ton aims at the floor");
        let hx = source.x as f64 + d.x as f64 * t;
        let hy = source.y as f64 + d.y as f64 * t;
        let hz = source.z as f64 + d.z as f64 * t;
        assert!(hy.abs() < 1e-6);
        assert!(hx >= footprint.min.x as f64 && hx <= footprint.max.x as f64);
        assert!(hz >= footprint.min.z as f64 && hz <= footprint.max.z as f64);

        let hit = p(hx.round() as i32, 0, hz.round() as i32);
        let idxs = surface.find_within_sphere_indexes(&hit, 60);
        for &k in idxs.iter() {
            let (x, z) = positions[k];
            assert!(((x - hit.x as f64).powi(2) + (z - hit.z as f64).powi(2)).sqrt() <= 60.0);
        }
        let mut ton = Ton {
            p_straight: UNIT,
            p_parabolic: 0,
            p_flow: 0,
            interaction_radius: 60,
            parabola_height: 50,
            substances: vec![0],
            pickup_rates: vec![UNIT / 10],
        };
        seed = seed.wrapping_mul(6364136223846793005).wrapping_add(1442695040888963407);
        let r = ((seed >> 33) % UNIT as u64) as u32;
        match interact(&mut surface, &mut ton, &idxs, r) {
            Some(Motion::Settle) => {
                if hx < footprint.min.x as f64 || hx > footprint.max.x as f64 {
                    settled_outside += 1;
                }
            }
            Some(_) => interactions += 1,
            None => {}
        }
        assert_eq!(ton.p_straight, UNIT - UNIT / 10);
        let up = p(0, 1, 0);
        assert!(first_hit(&tree, p(hx.round() as i32, 1, hz.round() as i32), up).is_none());
    }
    assert_eq!(interactions, 1000);
    assert_eq!(settled_outside, 0);
    let touched = surface.samples.iter().filter(|s| s.substances[0] < UNIT / 2).count();
    assert!(touched > 0);
    for s in surface.samples.iter() {
        if s.substances[0] < UNIT / 2 {
            assert!(s.position.x.abs() <= 300 && s.position.z.abs() <= 200);
        }
    }
}
