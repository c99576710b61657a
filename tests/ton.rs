use aitios::aabb::Point3;
use aitios::ton::{
    deteriorate_motion_probabilities, interact, interact_at_random, next_motion,
    transport_material_to_surf, transport_material_to_ton, Motion, Surface, Surfel, Ton, UNIT,
};

fn ton(ps: u32, pp: u32, pf: u32, substances: Vec<u32>, pickup_rates: Vec<u32>) -> Ton {
    Ton {
        p_straight: ps,
        p_parabolic: pp,
        p_flow: pf,
        interaction_radius: 10,
        parabola_height: 5,
        substances,
        pickup_rates,
    }
}

fn surfel(substances: Vec<u32>, deposition_rates: Vec<u32>, d: (u32, u32, u32)) -> Surfel {
    Surfel {
        position: Point3 { x: 0, y: 0, z: 0 },
        normal: Point3 { x: 0, y: 1, z: 0 },
        texcoords: (0, 0),
        entity_idx: 0,
        substances,
        deposition_rates,
        delta_straight: d.0,
        delta_parabolic: d.1,
        delta_flow: d.2,
    }
}

#[test]
fn motion_follows_cumulative_thresholds() {
    assert_eq!(next_motion(300, 200, 100, 0), Motion::Straight);
    assert_eq!(next_motion(300, 200, 100, 299), Motion::Straight);
    assert_eq!(next_motion(300, 200, 100, 300), Motion::Parabolic);
    assert_eq!(next_motion(300, 200, 100, 499), Motion::Parabolic);
    assert_eq!(next_motion(300, 200, 100, 500), Motion::Flow);
    assert_eq!(next_motion(300, 200, 100, 599), Motion::Flow);
    assert_eq!(next_motion(300, 200, 100, 600), Motion::Settle);
    assert_eq!(next_motion(u32::MAX, u32::MAX, u32::MAX, u32::MAX), Motion::Parabolic);
    assert_eq!(next_motion(0, 0, 0, 0), Motion::Settle);
}

#[test]
fn deterioration_stops_at_zero() {
    let mut t = ton(500, 100, 0, vec![], vec![]);
    deteriorate_motion_probabilities(&mut t, &surfel(vec![], vec![], (200, 300, 50)));
    assert_eq!((t.p_straight, t.p_parabolic, t.p_flow), (300, 0, 0));
}

#[test]
fn pickup_from_single_surfel_conserves_material() {
    let mut surface = Surface { samples: vec![surfel(vec![400000, 0], vec![0, 0], (0, 0, 0))] };
    let mut t = ton(UNIT, 0, 0, vec![0, 200000], vec![UNIT / 4, UNIT]);
    transport_material_to_ton(&mut surface, &vec![0], &mut t);
    assert_eq!(surface.samples[0].substances, vec![300000, 0]);
    assert_eq!(t.substances, vec![100000, 200000]);
    let before_surfel: i64 = 400000;
    let before_ton: i64 = 0;
    assert_eq!(
        surface.samples[0].substances[0] as i64 - before_surfel,
        -(t.substances[0] as i64 - before_ton)
    );
}

#[test]
fn pickup_is_split_among_surfels_and_capped() {
    let mut surface = Surface {
        samples: vec![
            surfel(vec![UNIT], vec![0], (0, 0, 0)),
            surfel(vec![UNIT], vec![0], (0, 0, 0)),
            surfel(vec![UNIT], vec![0], (0, 0, 0)),
        ],
    };
    let mut t = ton(UNIT, 0, 0, vec![900000], vec![UNIT / 2]);
    transport_material_to_ton(&mut surface, &vec![0, 2], &mut t);
    assert_eq!(surface.samples[0].substances, vec![750000]);
    assert_eq!(surface.samples[1].substances, vec![UNIT]);
    assert_eq!(surface.samples[2].substances, vec![750000]);
    assert_eq!(t.substances, vec![UNIT]);
}

#[test]
fn deposit_is_split_and_capped() {
    let mut surface = Surface {
        samples: vec![
            surfel(vec![0, 990000], vec![UNIT, UNIT], (0, 0, 0)),
            surfel(vec![100, 0], vec![UNIT / 2, 0], (0, 0, 0)),
        ],
    };
    let t = ton(0, 0, 0, vec![600000, 600000], vec![0, 0]);
    transport_material_to_surf(&t, &mut surface, &vec![0, 1]);
    assert_eq!(surface.samples[0].substances, vec![300000, UNIT]);
    assert_eq!(surface.samples[1].substances, vec![150100, 0]);
    assert_eq!(t.substances, vec![600000, 600000]);
}

#[test]
fn interaction_without_surfels_ends_the_ton() {
    let mut surface = Surface { samples: vec![surfel(vec![5], vec![5], (1, 1, 1))] };
    let mut t = ton(UNIT, 0, 0, vec![7], vec![UNIT]);
    assert_eq!(interact(&mut surface, &mut t, &vec![], 0), None);
    assert_eq!(surface.samples[0].substances, vec![5]);
    assert_eq!(t.substances, vec![7]);
    assert_eq!(t.p_straight, UNIT);
}

#[test]
fn moving_ton_deteriorates_and_picks_up() {
    let mut surface = Surface { samples: vec![surfel(vec![400000], vec![UNIT], (100000, 0, 0))] };
    let mut t = ton(UNIT, 0, 0, vec![0], vec![UNIT / 4]);
    assert_eq!(interact(&mut surface, &mut t, &vec![0], 0), Some(Motion::Straight));
    assert_eq!(t.p_straight, 900000);
    assert_eq!(surface.samples[0].substances, vec![300000]);
    assert_eq!(t.substances, vec![100000]);
}

#[test]
fn motion_is_chosen_by_the_probabilities_before_deterioration() {
    let mut surface = Surface { samples: vec![surfel(vec![0], vec![0], (UNIT, UNIT, UNIT))] };
    let mut t = ton(200000, 300000, 400000, vec![0], vec![0]);
    assert_eq!(interact(&mut surface, &mut t, &vec![0], 450000), Some(Motion::Parabolic));
    assert_eq!((t.p_straight, t.p_parabolic, t.p_flow), (0, 0, 0));
}

#[test]
fn settling_ton_deposits_and_keeps_its_probabilities() {
    let mut surface = Surface { samples: vec![surfel(vec![0], vec![UNIT / 2], (1000, 1000, 1000))] };
    let mut t = ton(100000, 0, 0, vec![UNIT], vec![UNIT]);
    assert_eq!(interact(&mut surface, &mut t, &vec![0], 100000), Some(Motion::Settle));
    assert_eq!(surface.samples[0].substances, vec![500000]);
    assert_eq!(t.substances, vec![UNIT]);
    assert_eq!(t.p_straight, 100000);
}

#[test]
fn probabilities_never_increase_over_a_lifetime() {
    let mut surface = Surface {
        samples: vec![
            surfel(vec![UNIT], vec![UNIT / 10], (30000, 20000, 10000)),
            surfel(vec![UNIT], vec![UNIT / 10], (50000, 0, 70000)),
        ],
    };
    let mut t = ton(700000, 200000, 100000, vec![0], vec![UNIT / 10]);
    let mut last = (t.p_straight, t.p_parabolic, t.p_flow);
    for step in 0..100 {
        let idxs = if step % 2 == 0 { vec![0] } else { vec![1, 0] };
        let m = interact_at_random(&mut surface, &mut t, &idxs);
        let now = (t.p_straight, t.p_parabolic, t.p_flow);
        assert!(now.0 <= last.0 && now.1 <= last.1 && now.2 <= last.2);
        last = now;
        if m == Some(Motion::Settle) {
            break;
        }
    }
}

fn surfel_at(x: i32, y: i32, z: i32) -> Surfel {
    let mut s = surfel(vec![0], vec![0], (0, 0, 0));
    s.position = Point3 { x, y, z };
    s
}

#[test]
fn surfels_within_a_sphere() {
    let surface = Surface {
        samples: vec![surfel_at(0, 0, 0), surfel_at(10, 0, 0), surfel_at(3, 4, 0), surfel_at(-6, 0, 8), surfel_at(0, 0, 11)],
    };
    let center = Point3 { x: 0, y: 0, z: 0 };
    assert_eq!(surface.find_within_sphere_indexes(&center, 10), vec![0, 1, 2, 3]);
    assert_eq!(surface.find_within_sphere_indexes(&center, 5), vec![0, 2]);
    assert_eq!(surface.find_within_sphere_indexes(&center, 0), vec![0]);
    assert_eq!(surface.find_within_sphere_indexes(&Point3 { x: 100, y: 0, z: 0 }, 10), Vec::<usize>::new());
}

#[test]
fn nearest_surfel() {
    let surface = Surface { samples: vec![surfel_at(10, 0, 0), surfel_at(3, 4, 0), surfel_at(0, 5, 0)] };
    assert_eq!(surface.nearest(&Point3 { x: 0, y: 0, z: 0 }), Some(1));
    assert_eq!(surface.nearest(&Point3 { x: 9, y: 0, z: 0 }), Some(0));
    assert_eq!(Surface { samples: vec![] }.nearest(&Point3 { x: 0, y: 0, z: 0 }), None);
}
