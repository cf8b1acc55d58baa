use point_shapes::assign_points;
use point_shapes::bvh::BoundingVolumeHierarchy;
use point_shapes::linalg::Vec3;
use point_shapes::parse_inputs::{
    parse_object, parse_objects, parse_points, to_bounding_box, AssignError, InputBoundingBox,
    InputCylinder, InputOrientedBox, InputShape,
};
use point_shapes::shapes::oriented_box::{Mat4, Row};
use point_shapes::shapes::shape::Shape;
use point_shapes::{classify, with_boxes};

fn v(x: i64, y: i64, z: i64) -> Vec3 {
    Vec3::new(x, y, z)
}

fn world() -> InputBoundingBox {
    InputBoundingBox { min: v(-100_000, -100_000, -100_000), max: v(100_000, 100_000, 100_000) }
}

fn cylinder(id: u32) -> InputShape {
    InputShape {
        object_id: id,
        cylinder: Some(InputCylinder { center_a: v(0, 0, 0), center_b: v(0, 0, 5000), radius: 1000 }),
        oriented_box: None,
    }
}

fn cube_at(x: i64, y: i64, z: i64, id: u32) -> InputShape {
    InputShape {
        object_id: id,
        cylinder: None,
        oriented_box: Some(InputOrientedBox {
            inv_instance_matrix: Mat4 {
                r0: Row { x: 1, y: 0, z: 0, w: -x },
                r1: Row { x: 0, y: 1, z: 0, w: -y },
                r2: Row { x: 0, y: 0, z: 1, w: -z },
                unit: 1000,
            },
        }),
    }
}

#[test]
fn ten_points_against_a_cylinder_and_a_box() {
    let shapes = vec![cylinder(7), cube_at(10_000, 0, 0, 9)];
    let points: Vec<i64> = vec![
        0, 0, 2000, // on the axis
        900, 0, 2000, // within the radius
        0, 0, -1000, // below the cap
        1100, 0, 2000, // beyond the radius
        10_000, 0, 0, // centre of the box
        11_000, 1000, -1000, // corner of the box
        11_001, 0, 0, // just outside the box
        5000, 0, 0, // between the two
        0, 1000, 5000, // rim of the upper cap
        9000, -1000, 1000, // another corner of the box
    ];
    let ids = assign_points(shapes, points, world(), v(0, 0, 0)).unwrap();
    assert_eq!(ids, vec![7, 7, 0, 0, 9, 9, 0, 0, 7, 9]);
}

#[test]
fn offset_moves_every_point() {
    let shapes = vec![cylinder(7), cube_at(10_000, 0, 0, 9)];
    let points: Vec<i64> = vec![-100, -100, 1900, 9900, -100, -100, 0, 0, 0];
    let ids = assign_points(shapes, points, world(), v(100, 100, 100)).unwrap();
    assert_eq!(ids, vec![7, 9, 7]);
}

#[test]
fn no_shapes_leave_every_point_unassigned() {
    let ids = assign_points(Vec::new(), vec![0, 0, 0, 1, 2, 3, -4, -5, -6], world(), v(0, 0, 0))
        .unwrap();
    assert_eq!(ids, vec![0, 0, 0]);
}

#[test]
fn no_points_give_no_labels() {
    let ids = assign_points(vec![cylinder(1)], Vec::new(), world(), v(0, 0, 0)).unwrap();
    assert!(ids.is_empty());
}

#[test]
fn point_moved_out_of_range_is_unassigned() {
    let ids = assign_points(
        vec![cylinder(1)],
        vec![i64::MAX, 0, 0, -1, 0, 0, 300_000_000, 0, 0],
        world(),
        v(1, 0, 100),
    )
    .unwrap();
    assert_eq!(ids, vec![0, 1, 0]);
}

#[test]
fn buffer_of_wrong_length_is_refused() {
    let r = assign_points(vec![cylinder(1)], vec![0, 0, 0, 1], world(), v(0, 0, 0));
    assert_eq!(r.unwrap_err(), AssignError::MalformedPoints);
    assert!(parse_points(&vec![1, 2], v(0, 0, 0)).is_none());
}

#[test]
fn inverted_world_box_is_refused() {
    let bad = InputBoundingBox { min: v(0, 1, 0), max: v(0, 0, 0) };
    let r = assign_points(vec![cylinder(1)], vec![0, 0, 0], bad, v(0, 0, 0));
    assert_eq!(r.unwrap_err(), AssignError::MalformedBoundingBox);
    assert!(to_bounding_box(&bad).is_none());
    assert_eq!(to_bounding_box(&world()).unwrap().max, v(100_000, 100_000, 100_000));
}

#[test]
fn record_with_no_kind_or_both_is_refused() {
    let neither = InputShape { object_id: 1, cylinder: None, oriented_box: None };
    let both = InputShape { oriented_box: cube_at(0, 0, 0, 1).oriented_box, ..cylinder(1) };
    assert_eq!(parse_object(&neither, 4).unwrap_err(), AssignError::MalformedShape { index: 4 });
    assert_eq!(parse_object(&both, 0).unwrap_err(), AssignError::MalformedShape { index: 0 });
    let r = assign_points(vec![cylinder(1), both, neither], vec![0, 0, 0], world(), v(0, 0, 0));
    assert_eq!(r.unwrap_err(), AssignError::MalformedShape { index: 1 });
}

#[test]
fn id_beyond_sixteen_bits_is_refused() {
    assert_eq!(
        parse_object(&cylinder(0x1_0000), 2).unwrap_err(),
        AssignError::IdOutOfRange { index: 2 }
    );
    match parse_object(&cylinder(0xFFFF), 2).unwrap() {
        Shape::Cylinder(c) => assert_eq!(c.object_id, 0xFFFF),
        Shape::OrientedBox(_) => panic!("a cylinder was given"),
    }
}

#[test]
fn geometry_out_of_range_is_refused() {
    let mut c = cylinder(1);
    c.cylinder = Some(InputCylinder { center_a: v(0, 0, 0), center_b: v(0, 0, 1), radius: -5 });
    assert_eq!(parse_object(&c, 3).unwrap_err(), AssignError::ShapeOutOfRange { index: 3 });
    let mut b = cube_at(0, 0, 0, 1);
    b.oriented_box = Some(InputOrientedBox {
        inv_instance_matrix: Mat4 { unit: -1, ..b.oriented_box.unwrap().inv_instance_matrix },
    });
    assert_eq!(parse_object(&b, 3).unwrap_err(), AssignError::ShapeOutOfRange { index: 3 });
}

#[test]
fn singular_transform_names_the_object() {
    let mut b = cube_at(0, 0, 0, 77);
    let m = b.oriented_box.unwrap().inv_instance_matrix;
    b.oriented_box =
        Some(InputOrientedBox { inv_instance_matrix: Mat4 { r2: Row { x: 1, y: 1, z: 0, w: 0 }, ..m } });
    assert_eq!(
        parse_object(&b, 0).unwrap_err(),
        AssignError::SingularTransform { object_id: 77 }
    );
    let r = parse_objects(&vec![cylinder(1), b, cylinder(0x10_0000)]);
    assert_eq!(r.unwrap_err(), AssignError::SingularTransform { object_id: 77 });
}

#[test]
fn records_convert_in_order() {
    let shapes = parse_objects(&vec![cube_at(0, 0, 0, 5), cylinder(6)]).unwrap();
    assert_eq!(shapes.len(), 2);
    assert_eq!(shapes[0].get_object_id(), 5);
    assert_eq!(shapes[1].get_object_id(), 6);
    assert!(matches!(shapes[0], Shape::OrientedBox(_)));
    assert!(matches!(shapes[1], Shape::Cylinder(_)));
}

#[test]
fn points_are_read_in_triples() {
    let pts = parse_points(&vec![1, 2, 3, 4, 5, 6], v(10, 20, 30)).unwrap();
    assert_eq!(pts, vec![v(11, 22, 33), v(14, 25, 36)]);
    let pts = parse_points(&vec![i64::MIN, 0, i64::MAX], v(-1, 0, 1)).unwrap();
    assert_eq!(pts, vec![v(i64::MIN, 0, i64::MAX)]);
}

#[test]
fn classify_labels_in_input_order() {
    let shapes = parse_objects(&vec![cylinder(7), cube_at(10_000, 0, 0, 9)]).unwrap();
    let entries = with_boxes(&shapes);
    assert_eq!(entries[0].bounds.max, v(1000, 1000, 6000));
    assert_eq!(entries[1].bounds.min, v(9000, -1000, -1000));
    let h = BoundingVolumeHierarchy::new(entries);
    let ids = classify(&h, &vec![v(10_000, 0, 0), v(0, 0, 0), v(5000, 0, 0)]);
    assert_eq!(ids, vec![9, 7, 0]);
}
