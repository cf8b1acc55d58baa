use point_shapes::linalg::{
    clamp_to_world, floor_div, mul_wide, saturating_sum, BoundingBox, Vec3, WORLD_LIMIT,
};
use point_shapes::shapes::cylinder::Cylinder;
use point_shapes::shapes::oriented_box::{BoxError, Mat4, OrientedBox, Row};
use point_shapes::shapes::shape::Shape;

fn v(x: i64, y: i64, z: i64) -> Vec3 {
    Vec3::new(x, y, z)
}

fn row(x: i64, y: i64, z: i64, w: i64) -> Row {
    Row { x, y, z, w }
}

fn identity() -> Mat4 {
    Mat4::identity(1000)
}

#[test]
fn identity_matrix_has_unit_rows() {
    let m = identity();
    assert_eq!(m.r0, row(1, 0, 0, 0));
    assert_eq!(m.r1, row(0, 1, 0, 0));
    assert_eq!(m.r2, row(0, 0, 1, 0));
    assert_eq!(m.unit, 1000);
    assert!(m.is_wf());
    assert_eq!(m.determinant(), 1);
}

#[test]
fn transform_applies_rows_and_translation() {
    let m = Mat4 { r0: row(2, -1, 0, 73), r1: row(0, 2, 0, -186), r2: row(1, 1, 4, -8), unit: 8 };
    assert_eq!(m.transform(&v(10, 93, 2)), v(20 - 93 + 73, 0, 10 + 93 + 8 - 8));
    assert_eq!(m.r2.apply_to(&v(-1, -2, -3)), -1 - 2 - 12 - 8);
    let l = WORLD_LIMIT;
    let big = Mat4 { r0: row(l, l, l, 1 << 56), r1: row(-l, -l, -l, -(1 << 56)), r2: row(0, 0, 0, 0), unit: 1 };
    assert_eq!(big.transform(&v(l, l, l)), v(1 << 58, -(1 << 58), 0));
}

#[test]
fn identity_oriented_box_contains_origin() {
    let ob = OrientedBox::new(identity(), 0).unwrap();
    assert!(ob.contains_point(&v(0, 0, 0)));
}

#[test]
fn identity_oriented_box_does_not_contain_doubled_cardinal_unit_vectors() {
    let ob = OrientedBox::new(identity(), 0).unwrap();
    assert!(!ob.contains_point(&v(2000, 0, 0)));
    assert!(!ob.contains_point(&v(0, 2000, 0)));
    assert!(!ob.contains_point(&v(0, 0, 2000)));
}

#[test]
fn identity_oriented_box_is_inclusive_at_its_faces() {
    let ob = OrientedBox::new(identity(), 0).unwrap();
    assert!(ob.contains_point(&v(1000, -1000, 1000)));
    assert!(!ob.contains_point(&v(1001, 0, 0)));
    assert!(!ob.contains_point(&v(0, 0, -1001)));
}

#[test]
fn translated_oriented_box_contains_only_translated_origin() {
    let m = Mat4 {
        r0: row(1, 0, 0, -2000),
        r1: row(0, 1, 0, -2000),
        r2: row(0, 0, 1, -2000),
        unit: 1000,
    };
    let ob = OrientedBox::new(m, 0).unwrap();
    assert!(!ob.contains_point(&v(0, 0, 0)));
    assert!(ob.contains_point(&v(2000, 2000, 2000)));
    let b = ob.create_bounding_box();
    assert_eq!(b.min, v(1000, 1000, 1000));
    assert_eq!(b.max, v(3000, 3000, 3000));
}

#[test]
fn scaled_oriented_box_contains_only_points_in_scaled_direction() {
    let m = Mat4 { r0: row(1, 0, 0, 0), r1: row(0, 3, 0, 0), r2: row(0, 0, 3, 0), unit: 3000 };
    let ob = OrientedBox::new(m, 0).unwrap();
    assert!(ob.contains_point(&v(2000, 0, 0)));
    assert!(!ob.contains_point(&v(0, 2000, 0)));
    assert!(!ob.contains_point(&v(0, 0, 2000)));
    let b = ob.create_bounding_box();
    assert_eq!(b.min, v(-3000, -1000, -1000));
    assert_eq!(b.max, v(3000, 1000, 1000));
}

#[test]
fn scaled_and_rotated_oriented_box_contains_the_right_points() {
    let m = Mat4 { r0: row(3, 0, 0, 0), r1: row(0, 0, 1, 0), r2: row(0, -3, 0, 0), unit: 3000 };
    let ob = OrientedBox::new(m, 0).unwrap();
    assert!(!ob.contains_point(&v(2000, 0, 0)));
    assert!(!ob.contains_point(&v(0, 2000, 0)));
    assert!(ob.contains_point(&v(0, 0, 2000)));
    let b = ob.create_bounding_box();
    assert_eq!(b.min, v(-1000, -1000, -3000));
    assert_eq!(b.max, v(1000, 1000, 3000));
}

#[test]
fn identitys_bounding_box_is_identity() {
    let ob = OrientedBox::new(identity(), 0).unwrap();
    let b = ob.create_bounding_box();
    assert_eq!(b.min, v(-1000, -1000, -1000));
    assert_eq!(b.max, v(1000, 1000, 1000));
}

#[test]
fn bounding_box_contains_transformed_origin() {
    // The inverse of: shear x by y, then move by (10, 93, 2).
    let m = Mat4 {
        r0: row(2, -1, 0, -20 + 93),
        r1: row(0, 2, 0, -186),
        r2: row(0, 0, 4, -8),
        unit: 8,
    };
    let ob = OrientedBox::new(m, 7).unwrap();
    let centre = v(10 + 47 - 47, 93, 2);
    assert!(ob.contains_point(&centre));
    let b = ob.create_bounding_box();
    assert!(b.contains_point(&centre));
    assert_eq!(ob.get_object_id(), 7);
}

#[test]
fn rotated_box_gets_a_box_rounded_outwards() {
    // A square turned by 45 degrees: |x + y| <= 3 and |y - x| <= 3.
    let m = Mat4 { r0: row(1, 1, 0, 0), r1: row(-1, 1, 0, 0), r2: row(0, 0, 1, 0), unit: 3 };
    let ob = OrientedBox::new(m, 1).unwrap();
    assert!(ob.contains_point(&v(3, 0, 0)));
    assert!(ob.contains_point(&v(0, -3, 3)));
    assert!(!ob.contains_point(&v(2, 2, 0)));
    let b = ob.create_bounding_box();
    assert_eq!(b.min, v(-3, -3, -3));
    assert_eq!(b.max, v(3, 3, 3));
    // With unit 5 and the same rows the corners lie at +-5 on the axes.
    let m = Mat4 { r0: row(2, 2, 0, 0), r1: row(-2, 2, 0, 0), r2: row(0, 0, 1, 0), unit: 5 };
    let b = OrientedBox::new(m, 1).unwrap().create_bounding_box();
    // x and y reach +-2.5: rounded outwards to +-3.
    assert_eq!(b.min, v(-3, -3, -5));
    assert_eq!(b.max, v(3, 3, 5));
}

#[test]
fn mirrored_box_has_a_negative_determinant() {
    let m = Mat4 { r0: row(-1, 0, 0, 4), r1: row(0, 1, 0, 0), r2: row(0, 0, 1, 0), unit: 2 };
    assert_eq!(m.determinant(), -1);
    let ob = OrientedBox::new(m, 1).unwrap();
    let b = ob.create_bounding_box();
    assert_eq!(b.min, v(2, -2, -2));
    assert_eq!(b.max, v(6, 2, 2));
    assert!(ob.contains_point(&v(6, 2, -2)));
    assert!(!ob.contains_point(&v(1, 0, 0)));
}

#[test]
fn large_box_is_cut_to_the_world() {
    let m = Mat4 {
        r0: row(1, 0, 0, 0),
        r1: row(0, 1, 0, 0),
        r2: row(0, 0, 1, 0),
        unit: WORLD_LIMIT,
    };
    let far = Mat4 { r0: row(1, 0, 0, 1 << 40), ..m };
    let b = OrientedBox::new(far, 1).unwrap().create_bounding_box();
    assert_eq!(b.min.x, -WORLD_LIMIT);
    assert_eq!(b.max.x, -WORLD_LIMIT);
    assert_eq!(b.max.y, WORLD_LIMIT);
}

#[test]
fn singular_matrix_is_refused() {
    let m = Mat4 { r0: row(1, 2, 3, 0), r1: row(2, 4, 6, 0), r2: row(0, 0, 1, 0), unit: 10 };
    assert_eq!(m.determinant(), 0);
    assert_eq!(OrientedBox::new(m, 3).unwrap_err(), BoxError::Singular);
}

#[test]
fn matrix_out_of_range_is_refused() {
    let mut m = identity();
    m.unit = 0;
    assert_eq!(OrientedBox::new(m, 3).unwrap_err(), BoxError::OutOfRange);
    let mut m = identity();
    m.r1.y = WORLD_LIMIT + 1;
    assert_eq!(OrientedBox::new(m, 3).unwrap_err(), BoxError::OutOfRange);
    let mut m = identity();
    m.r2.w = i64::MIN;
    assert_eq!(OrientedBox::new(m, 3).unwrap_err(), BoxError::OutOfRange);
}

#[test]
fn determinant_and_adjugate_of_a_full_matrix() {
    let m = Mat4 { r0: row(2, 0, 1, 0), r1: row(1, 3, 2, 0), r2: row(1, 1, 1, 0), unit: 1 };
    assert_eq!(m.determinant(), 2 * (3 - 2) + 0 + (1 - 3));
    assert_eq!(m.adjugate_row_of(0), (1, 1, -3));
    assert_eq!(m.adjugate_row_of(1), (1, 1, -3));
    assert_eq!(m.adjugate_row_of(2), (-2, -2, 6));
}

#[test]
fn cylinder_contains_points_near_its_axis() {
    let c = Cylinder::new(v(0, 0, 0), v(0, 0, 5000), 1000, 4).unwrap();
    assert!(c.contains_point(&v(0, 0, 2000)));
    assert!(c.contains_point(&v(900, 0, 2000)));
    assert!(!c.contains_point(&v(0, 0, -1000)));
    assert!(!c.contains_point(&v(1100, 0, 2000)));
    assert_eq!(c.get_object_id(), 4);
}

#[test]
fn cylinder_is_inclusive_at_caps_and_wall() {
    let c = Cylinder::new(v(0, 0, 0), v(0, 0, 5000), 1000, 4).unwrap();
    assert!(c.contains_point(&v(0, 0, 0)));
    assert!(c.contains_point(&v(0, 0, 5000)));
    assert!(c.contains_point(&v(1000, 0, 5000)));
    assert!(c.contains_point(&v(600, 800, 1)));
    assert!(!c.contains_point(&v(601, 800, 1)));
    assert!(!c.contains_point(&v(0, 0, 5001)));
    assert!(!c.contains_point(&v(0, 0, -1)));
}

#[test]
fn slanted_cylinder() {
    let c = Cylinder::new(v(0, 0, 0), v(3000, 4000, 0), 500, 4).unwrap();
    assert!(c.contains_point(&v(1500, 2000, 500)));
    assert!(!c.contains_point(&v(1500, 2000, 501)));
    // 400 off the axis sideways, at its start.
    assert!(c.contains_point(&v(-320, 240, 0)));
    // Just before the cap.
    assert!(!c.contains_point(&v(-3, -4, 0)));
    let b = c.create_bounding_box();
    assert_eq!(b.min, v(-500, -500, -500));
    assert_eq!(b.max, v(3500, 4500, 500));
}

#[test]
fn cylinder_without_length_is_a_ball() {
    let c = Cylinder::new(v(10, 10, 10), v(10, 10, 10), 5, 4).unwrap();
    assert!(c.contains_point(&v(10, 10, 10)));
    assert!(c.contains_point(&v(13, 14, 10)));
    assert!(c.contains_point(&v(10, 10, 5)));
    assert!(!c.contains_point(&v(13, 14, 11)));
    let b = c.create_bounding_box();
    assert_eq!(b.min, v(5, 5, 5));
    assert_eq!(b.max, v(15, 15, 15));
}

#[test]
fn cylinder_at_the_limits_does_not_overflow() {
    let l = WORLD_LIMIT;
    let c = Cylinder::new(v(-l, -l, -l), v(l, l, l), l, 1).unwrap();
    assert!(c.contains_point(&v(0, 0, 0)));
    assert!(c.contains_point(&v(l, l, l)));
    assert!(!c.contains_point(&v(l, -l, l)));
    assert!(c.contains_point(&v(-l, -l, -l)));
}

#[test]
fn cylinder_out_of_range_is_refused() {
    assert!(Cylinder::new(v(0, 0, 0), v(0, 0, 1), -1, 1).is_none());
    assert!(Cylinder::new(v(0, 0, 0), v(0, 0, 1), WORLD_LIMIT + 1, 1).is_none());
    assert!(Cylinder::new(v(WORLD_LIMIT + 1, 0, 0), v(0, 0, 1), 1, 1).is_none());
    assert!(Cylinder::new(v(0, 0, 0), v(0, -WORLD_LIMIT - 1, 1), 1, 1).is_none());
    assert!(Cylinder::new(v(0, 0, 0), v(0, 0, 0), 0, 1).is_some());
}

#[test]
fn box_contains_its_boundary() {
    let b = BoundingBox::new(v(-1, 2, 3), v(4, 5, 6)).unwrap();
    assert!(b.contains_point(&v(-1, 2, 3)));
    assert!(b.contains_point(&v(4, 5, 6)));
    assert!(b.contains_point(&v(4, 3, 3)));
    assert!(b.contains_point(&v(0, 3, 4)));
    assert!(!b.contains_point(&v(5, 3, 4)));
    assert!(!b.contains_point(&v(0, 1, 4)));
    assert!(!b.contains_point(&v(0, 3, 7)));
}

#[test]
fn inverted_box_is_refused() {
    assert!(BoundingBox::new(v(0, 0, 1), v(0, 0, 0)).is_none());
    assert!(BoundingBox::new(v(0, 0, 0), v(0, 0, 0)).is_some());
}

#[test]
fn union_is_associative_commutative_and_idempotent() {
    let a = BoundingBox::new(v(0, 0, 0), v(1, 1, 1)).unwrap();
    let b = BoundingBox::new(v(-5, 2, 0), v(-4, 3, 9)).unwrap();
    let c = BoundingBox::new(v(3, -7, 1), v(8, -6, 2)).unwrap();
    assert_eq!(a.union(&b).union(&c), a.union(&b.union(&c)));
    assert_eq!(a.union(&b), b.union(&a));
    assert_eq!(a.union(&a), a);
    let u = a.union(&b).union(&c);
    assert_eq!(u.min, v(-5, -7, 0));
    assert_eq!(u.max, v(8, 3, 9));
}

#[test]
fn base_cube_spans_the_unit() {
    let b = BoundingBox::get_base_cube_bounding_box(1000);
    assert_eq!(b.min, v(-1000, -1000, -1000));
    assert_eq!(b.max, v(1000, 1000, 1000));
}

#[test]
fn floor_div_rounds_down() {
    assert_eq!(floor_div(7, 2), 3);
    assert_eq!(floor_div(-7, 2), -4);
    assert_eq!(floor_div(-8, 2), -4);
    assert_eq!(floor_div(-1, 5), -1);
    assert_eq!(floor_div(0, 5), 0);
}

#[test]
fn helpers_compute_exactly() {
    assert_eq!(mul_wide(-(1 << 60), 1 << 60), -(1i128 << 120));
    assert_eq!(clamp_to_world(1 << 100), WORLD_LIMIT);
    assert_eq!(clamp_to_world(-(1 << 100)), -WORLD_LIMIT);
    assert_eq!(clamp_to_world(-17), -17);
    assert_eq!(saturating_sum(i64::MAX, 1), i64::MAX);
    assert_eq!(saturating_sum(i64::MIN, -1), i64::MIN);
    assert_eq!(saturating_sum(-3, 5), 2);
}

#[test]
fn shape_forwards_to_its_kind() {
    let c = Shape::Cylinder(Cylinder::new(v(0, 0, 0), v(0, 0, 5000), 1000, 4).unwrap());
    let o = Shape::OrientedBox(OrientedBox::new(identity(), 9).unwrap());
    assert_eq!(c.get_object_id(), 4);
    assert_eq!(o.get_object_id(), 9);
    assert!(c.contains_point(&v(0, 0, 4000)));
    assert!(!o.contains_point(&v(0, 0, 4000)));
    assert_eq!(c.create_bounding_box().max, v(1000, 1000, 6000));
    assert_eq!(o.create_bounding_box().max, v(1000, 1000, 1000));
}
