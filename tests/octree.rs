use aitios::aabb::{Aabb, Point3, KEY_SCALE};
use aitios::octree::Octree;

fn cube(lo: i32, hi: i32) -> Aabb {
    Aabb { min: Point3 { x: lo, y: lo, z: lo }, max: Point3 { x: hi, y: hi, z: hi } }
}

fn make_example_aabb_tree() -> Octree<Aabb> {
    let whole_world = cube(-100, 100);
    let around_origin = cube(-1, 1);
    let left_top_front1 = cube(49, 51);
    let left_top_front2 = cube(49, 51);
    let left_top_front3 = cube(49, 51);

    Octree::from_elements(vec![
        whole_world,
        around_origin,
        left_top_front1,
        left_top_front2,
        left_top_front3,
    ])
}

#[test]
fn test_subdivision() {
    let tree = make_example_aabb_tree();

    assert_eq!(tree.depth(), 2);
    assert_eq!(tree.entity_count(), 5);
    assert_eq!(tree.node_count(), 2);

    let root = tree.root();
    assert!(
        root.data.len() == 2
            && root.data.iter().any(|e| *e == cube(-100, 100))
            && root.data.iter().any(|e| *e == cube(-1, 1)),
        "Root node should have whole_world and around_origin, but had data {:?}",
        root.data
    );

    assert!(
        root.children.iter().any(|c| match c {
            Some(c) => {
                let c = &tree.nodes[*c];
                c.data.len() == 3 && c.data.iter().all(|e| *e == cube(49, 51))
            }
            None => false,
        }),
        "Expected a direct descendant of the root node to contain three left_top_front"
    );
}

#[test]
fn empty_octree_has_one_empty_node() {
    let tree: Octree<Aabb> = Octree::from_elements(Vec::new());
    assert_eq!(tree.node_count(), 1);
    assert_eq!(tree.entity_count(), 0);
    assert_eq!(tree.depth(), 1);
}

#[test]
fn octree_keeps_every_element() {
    let mut boxes = Vec::new();
    for i in 0..40 {
        let lo = (i * 37 % 200) - 100;
        boxes.push(Aabb {
            min: Point3 { x: lo, y: -lo / 2, z: lo / 3 },
            max: Point3 { x: lo + 3, y: -lo / 2 + 2, z: lo / 3 + 1 },
        });
    }
    let tree = Octree::from_elements(boxes);
    assert_eq!(tree.entity_count(), 40);
    assert!(tree.node_count() > 1);
    assert!(tree.depth() >= 2);
}

#[test]
fn single_element_is_not_split() {
    let tree = Octree::from_vec_with_bounds(vec![cube(0, 1)], cube(-50, 50), 1);
    assert_eq!(tree.node_count(), 1);
    assert_eq!(tree.root().data.len(), 1);
    assert_eq!(tree.root().bounds, cube(-50, 50));
}

#[test]
fn small_nodes_are_not_split() {
    let data = vec![cube(1, 2), cube(3, 4), cube(-4, -3)];
    let tree = Octree::from_vec_with_bounds(data, cube(-10, 10), 8001);
    assert_eq!(tree.node_count(), 1);
    assert_eq!(tree.root().data.len(), 3);
    let data = vec![cube(1, 2), cube(3, 4), cube(-4, -3)];
    let tree = Octree::from_vec_with_bounds(data, cube(-10, 10), 8000);
    assert_eq!(tree.entity_count(), 3);
    assert!(tree.node_count() > 1);
}

fn pt(x: i32, y: i32, z: i32) -> Point3 {
    Point3 { x, y, z }
}

fn make_example_aabb_tree_nonoverlapping() -> Octree<Aabb> {
    Octree::from_elements(vec![cube(-1, 1), cube(49, 51), cube(59, 61), cube(69, 71)])
}

#[test]
fn test_line_segment_intersection() {
    let tree = make_example_aabb_tree_nonoverlapping();
    let o = pt(0, 100, 0);
    let d = pt(0, -1, 0);
    let enters = |b: &Aabb| b.ray_key(o, d);
    let hits = |e: &Aabb| e.ray_key(o, d);

    let intersection = tree.line_segment_intersection_target_and_parameter(&enters, &hits, 100 * KEY_SCALE);

    assert!(intersection.is_some());
    if let Some((target, parameter)) = intersection {
        assert_eq!(parameter, 99 * KEY_SCALE, "Expected to hit the AABB centered around the origin, instead hit {:?}", target);
        assert_eq!(*target, cube(-1, 1));
    }

    let intersection = tree.line_segment_intersection_target_and_parameter(&enters, &hits, 98 * KEY_SCALE);
    assert!(intersection.is_none());
}

#[test]
fn ray_query_finds_the_nearest_element() {
    let tree = make_example_aabb_tree_nonoverlapping();
    let o = pt(100, 100, 100);
    let d = pt(-1, -1, -1);
    let enters = |b: &Aabb| b.ray_key(o, d);
    let hits = |e: &Aabb| e.ray_key(o, d);
    let (target, t) = tree.ray_intersection_target_and_parameter(&enters, &hits).unwrap();
    assert_eq!(*target, cube(69, 71));
    assert_eq!(t, 29 * KEY_SCALE);
    assert_eq!(tree.ray_intersection_parameter(&enters, &hits), Some(29 * KEY_SCALE));

    let away = pt(1, 1, 1);
    let enters = |b: &Aabb| b.ray_key(o, away);
    let hits = |e: &Aabb| e.ray_key(o, away);
    assert!(tree.ray_intersection_target_and_parameter(&enters, &hits).is_none());
}
