use point_shapes::bvh::{
    enclosure_of, sort_by_centroid, widest_axis_of, BoundingVolumeHierarchy, Entry, Node,
    UNASSIGNED,
};
use point_shapes::linalg::{BoundingBox, Vec3, WORLD_LIMIT};
use point_shapes::shapes::cylinder::Cylinder;
use point_shapes::shapes::shape::Shape;

fn v(x: i64, y: i64, z: i64) -> Vec3 {
    Vec3::new(x, y, z)
}

fn ball(x: i64, y: i64, z: i64, r: i64, id: u16) -> Entry {
    Entry::new(Shape::Cylinder(Cylinder::new(v(x, y, z), v(x, y, z), r, id).unwrap()))
}

fn leaf_ids(n: &Node, out: &mut Vec<u16>) {
    match n {
        Node::Leaf { entry } => out.push(entry.shape.get_object_id()),
        Node::Internal { left, right, .. } => {
            leaf_ids(left, out);
            leaf_ids(right, out);
        }
    }
}

#[test]
fn empty_hierarchy_assigns_nothing() {
    let h = BoundingVolumeHierarchy::new(Vec::new());
    assert!(h.root.is_none());
    assert_eq!(h.get_object_id(&v(0, 0, 0)), UNASSIGNED);
    assert_eq!(h.get_object_id(&v(5, -7, 9)), 0);
    assert_eq!(h.get_object_id(&v(i64::MAX, 0, 0)), 0);
}

#[test]
fn single_shape_is_a_leaf() {
    let e = ball(0, 0, 0, 10, 3);
    let h = BoundingVolumeHierarchy::new(vec![e]);
    match h.root.as_ref().unwrap() {
        Node::Leaf { entry } => assert_eq!(*entry, e),
        Node::Internal { .. } => panic!("a single entry makes a leaf"),
    }
    assert_eq!(h.get_object_id(&v(0, 0, 10)), 3);
    assert_eq!(h.get_object_id(&v(0, 0, 11)), 0);
}

#[test]
fn entries_are_split_at_the_median_of_the_widest_axis() {
    // Spread along y.
    let entries =
        vec![ball(0, 300, 0, 5, 1), ball(1, 100, 0, 5, 2), ball(2, 500, 0, 5, 3), ball(3, 200, 0, 5, 4), ball(4, 400, 0, 5, 5)];
    let total = enclosure_of(&entries);
    assert_eq!(total.min, v(-5, 95, -5));
    assert_eq!(total.max, v(9, 505, 5));
    assert_eq!(widest_axis_of(&total), 1);
    let h = BoundingVolumeHierarchy::new(entries);
    let root = h.root.as_ref().unwrap();
    assert_eq!(root.bounding_box(), total);
    let mut ids = Vec::new();
    leaf_ids(root, &mut ids);
    assert_eq!(ids, vec![2, 4, 1, 5, 3]);
    match root {
        Node::Internal { left, right, .. } => {
            let mut l = Vec::new();
            leaf_ids(left, &mut l);
            let mut r = Vec::new();
            leaf_ids(right, &mut r);
            assert_eq!(l.len(), 2);
            assert_eq!(r.len(), 3);
        }
        Node::Leaf { .. } => panic!("five entries make an internal node"),
    }
}

#[test]
fn widest_axis_prefers_the_earlier_axis_on_a_tie() {
    let b = BoundingBox::new(v(0, 0, 0), v(4, 4, 4)).unwrap();
    assert_eq!(widest_axis_of(&b), 0);
    let b = BoundingBox::new(v(0, 0, 0), v(3, 4, 4)).unwrap();
    assert_eq!(widest_axis_of(&b), 1);
    let b = BoundingBox::new(v(0, 0, 0), v(3, 4, 5)).unwrap();
    assert_eq!(widest_axis_of(&b), 2);
    let b = BoundingBox::new(v(i64::MIN, 0, 0), v(i64::MAX, 4, 5)).unwrap();
    assert_eq!(widest_axis_of(&b), 0);
}

#[test]
fn sort_keeps_equal_centroids_in_order() {
    let entries = vec![ball(5, 0, 0, 1, 1), ball(2, 0, 0, 1, 2), ball(5, 0, 0, 2, 3), ball(2, 0, 0, 3, 4)];
    let sorted = sort_by_centroid(&entries, 0);
    let ids: Vec<u16> = sorted.iter().map(|e| e.shape.get_object_id()).collect();
    assert_eq!(ids, vec![2, 4, 1, 3]);
    assert_eq!(sorted[0].key(0), 4);
    assert_eq!(sorted[2].key(0), 10);
}

#[test]
fn query_finds_each_of_many_separate_shapes() {
    let mut entries = Vec::new();
    for i in 0..40i64 {
        entries.push(ball(i * 100, (i % 7) * 1000, (i % 3) * 50, 10, (i + 1) as u16));
    }
    let h = BoundingVolumeHierarchy::new(entries);
    for i in 0..40i64 {
        let c = v(i * 100, (i % 7) * 1000, (i % 3) * 50);
        assert_eq!(h.get_object_id(&c), (i + 1) as u16);
        assert_eq!(h.get_object_id(&v(c.x + 6, c.y + 8, c.z)), (i + 1) as u16);
        assert_eq!(h.get_object_id(&v(c.x + 7, c.y + 8, c.z)), 0);
    }
    assert_eq!(h.get_object_id(&v(50, 50, 50)), 0);
}

#[test]
fn repeated_queries_agree_and_order_of_input_is_immaterial_without_overlap() {
    let a = vec![ball(0, 0, 0, 10, 1), ball(100, 0, 0, 10, 2), ball(0, 100, 0, 10, 3)];
    let b = vec![a[2], a[0], a[1]];
    let ha = BoundingVolumeHierarchy::new(a);
    let hb = BoundingVolumeHierarchy::new(b);
    for p in [v(0, 0, 0), v(100, 0, 5), v(0, 95, 0), v(50, 50, 0), v(0, 0, 11)] {
        let first = ha.get_object_id(&p);
        assert_eq!(ha.get_object_id(&p), first);
        assert_eq!(hb.get_object_id(&p), first);
    }
    assert_eq!(ha.get_object_id(&v(100, 0, 5)), 2);
}

#[test]
fn overlap_goes_to_the_first_leaf_from_the_left() {
    // Sorted along x: id 2 (centre 0), id 1 (centre 10), id 3 (centre 30).
    let h = BoundingVolumeHierarchy::new(vec![
        ball(10, 0, 0, 20, 1),
        ball(0, 0, 0, 20, 2),
        ball(30, 0, 0, 20, 3),
    ]);
    let mut ids = Vec::new();
    leaf_ids(h.root.as_ref().unwrap(), &mut ids);
    assert_eq!(ids, vec![2, 1, 3]);
    assert_eq!(h.get_object_id(&v(5, 0, 0)), 2);
    assert_eq!(h.get_object_id(&v(25, 0, 0)), 1);
    assert_eq!(h.get_object_id(&v(45, 0, 0)), 3);
    assert_eq!(h.get_object_id(&v(51, 0, 0)), 0);
}

#[test]
fn shape_with_id_zero_still_answers_first() {
    let h = BoundingVolumeHierarchy::new(vec![ball(0, 0, 0, 20, 0), ball(10, 0, 0, 20, 5)]);
    assert_eq!(h.get_object_id(&v(5, 0, 0)), 0);
    assert_eq!(h.get_object_id(&v(25, 0, 0)), 5);
}

#[test]
fn points_outside_the_world_are_unassigned() {
    let h = BoundingVolumeHierarchy::new(vec![ball(WORLD_LIMIT, 0, 0, 20, 8)]);
    assert_eq!(h.get_object_id(&v(WORLD_LIMIT, 0, 0)), 8);
    assert_eq!(h.get_object_id(&v(WORLD_LIMIT + 1, 0, 0)), 0);
    assert_eq!(h.get_object_id(&v(i64::MIN, i64::MAX, 0)), 0);
}

fn height(n: &Node) -> u32 {
    match n {
        Node::Leaf { .. } => 0,
        Node::Internal { left, right, .. } => 1 + height(left).max(height(right)),
    }
}

#[test]
fn tree_is_shallow_even_for_clustered_shapes() {
    for (count, expected) in [(1i64, 0u32), (2, 1), (3, 2), (4, 2), (5, 3), (8, 3), (9, 4), (100, 7)] {
        let mut entries = Vec::new();
        for i in 0..count {
            // All but one shape sit in one spot.
            let x = if i == 0 { 1_000_000 } else { i % 2 };
            entries.push(ball(x, 0, 0, 3, i as u16));
        }
        let h = BoundingVolumeHierarchy::new(entries);
        assert_eq!(height(h.root.as_ref().unwrap()), expected);
    }
}

#[test]
fn internal_box_is_the_union_of_the_children() {
    let h = BoundingVolumeHierarchy::new(vec![ball(0, 0, 0, 1, 1), ball(10, 20, 30, 2, 2), ball(-5, 0, 7, 3, 3)]);
    match h.root.as_ref().unwrap() {
        Node::Internal { bounds, left, right } => {
            assert_eq!(*bounds, left.bounding_box().union(&right.bounding_box()));
            assert_eq!(bounds.min, v(-8, -3, -1));
            assert_eq!(bounds.max, v(12, 22, 32));
        }
        Node::Leaf { .. } => panic!("three entries make an internal node"),
    }
}
