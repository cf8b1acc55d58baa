//! The capped solid cylinder.

use crate::linalg::{
    dot_product, greater, lemma_distribute, lemma_mul_range, lemma_regroup, lesser, max_of,
    min_of, minus, BoundingBox, Vec3, WORLD_LIMIT,
};
use vstd::prelude::*;

verus! {

/// A finite solid cylinder around the segment between two centers.
#[derive(Clone, Copy, Debug, PartialEq, Eq, Structural)]
pub struct Cylinder {
    pub center_a: Vec3,
    pub center_b: Vec3,
    pub radius: i64,
    pub object_id: u16,
}

/// The vector from `b` to `a`.
pub open spec fn diff(a: Vec3, b: Vec3) -> (int, int, int) {
    (a.x - b.x, a.y - b.y, a.z - b.z)
}

/// The scalar product of two vectors.
pub open spec fn inner(a: (int, int, int), b: (int, int, int)) -> int {
    a.0 * b.0 + a.1 * b.1 + a.2 * b.2
}

impl Cylinder {
    /// Both centers lie in the world and the radius is between zero and the
    /// world limit.
    pub open spec fn wf(self) -> bool {
        &&& self.center_a.in_world()
        &&& self.center_b.in_world()
        &&& 0 <= self.radius <= WORLD_LIMIT
    }

    /// Exact containment. With `d` the vector from the first center to `p`,
    /// `axis` the vector between the centers and `t` the projection of `d`
    /// on `axis`: the point lies between the caps when `0 <= t <= |axis|^2`,
    /// and within the radius when its squared distance from the axis line,
    /// `|d|^2 - t^2 / |axis|^2`, is at most `radius^2`. A cylinder whose
    /// centers coincide is the ball of that radius around them.
    pub open spec fn contains(self, p: Vec3) -> bool {
        let d = diff(p, self.center_a);
        let axis = diff(self.center_b, self.center_a);
        let len2 = inner(axis, axis);
        let t = inner(d, axis);
        let r2 = self.radius * self.radius;
        if len2 == 0 {
            inner(d, d) <= r2
        } else {
            &&& 0 <= t <= len2
            &&& inner(d, d) * len2 - t * t <= r2 * len2
        }
    }

    /// The box of the two balls of the cylinder's radius around its centers.
    pub open spec fn bounding_box(self) -> BoundingBox {
        BoundingBox {
            min: Vec3 {
                x: (min_of(self.center_a.x, self.center_b.x) - self.radius) as i64,
                y: (min_of(self.center_a.y, self.center_b.y) - self.radius) as i64,
                z: (min_of(self.center_a.z, self.center_b.z) - self.radius) as i64,
            },
            max: Vec3 {
                x: (max_of(self.center_a.x, self.center_b.x) + self.radius) as i64,
                y: (max_of(self.center_a.y, self.center_b.y) + self.radius) as i64,
                z: (max_of(self.center_a.z, self.center_b.z) + self.radius) as i64,
            },
        }
    }

    /// Builds the cylinder, or nothing when a center lies outside the world
    /// or the radius is negative or exceeds the world limit.
    pub fn new(center_a: Vec3, center_b: Vec3, radius: i64, object_id: u16) -> (c: Option<
        Cylinder,
    >)
        ensures
            c.is_some() <==> (Cylinder { center_a, center_b, radius, object_id }).wf(),
            c.is_some() ==> c.unwrap() == (Cylinder { center_a, center_b, radius, object_id }),
    {
        if center_a.is_in_world() && center_b.is_in_world() && 0 <= radius && radius
            <= WORLD_LIMIT {
            Some(Cylinder { center_a, center_b, radius, object_id })
        } else {
            None
        }
    }

    /// Decides `contains` for a point of the world.
    pub fn contains_point(&self, p: &Vec3) -> (r: bool)
        requires
            self.wf(),
            p.in_world(),
        ensures
            r == self.contains(*p),
    {
        let d = minus(p, &self.center_a);
        let axis = minus(&self.center_b, &self.center_a);
        let len2 = dot_product(&axis, &axis);
        let t = dot_product(&d, &axis);
        let d2 = dot_product(&d, &d);
        proof {
            lemma_mul_range(self.radius as int, self.radius as int, 0x1000_0000, 0x1000_0000);
            assert(0x1000_0000 * 0x1000_0000 == 0x100_0000_0000_0000);
        }
        let r2: i128 = (self.radius as i128) * (self.radius as i128);
        if len2 == 0 {
            d2 <= r2
        } else if t < 0 || t > len2 {
            false
        } else {
            proof {
                lemma_mul_range(d2 as int, len2 as int, 0xC00_0000_0000_0000, 0xC00_0000_0000_0000);
                lemma_mul_range(t as int, t as int, 0xC00_0000_0000_0000, 0xC00_0000_0000_0000);
                lemma_mul_range(r2 as int, len2 as int, 0x100_0000_0000_0000, 0xC00_0000_0000_0000);
                assert(0xC00_0000_0000_0000 * 0xC00_0000_0000_0000
                    == 0x90_0000_0000_0000_0000_0000_0000_0000);
                assert(0x100_0000_0000_0000 * 0xC00_0000_0000_0000
                    == 0xC_0000_0000_0000_0000_0000_0000_0000);
            }
            d2 * len2 - t * t <= r2 * len2
        }
    }

    /// Computes `bounding_box`.
    pub fn create_bounding_box(&self) -> (b: BoundingBox)
        requires
            self.wf(),
        ensures
            b == self.bounding_box(),
            b.wf(),
    {
        BoundingBox {
            min: Vec3 {
                x: lesser(self.center_a.x, self.center_b.x) - self.radius,
                y: lesser(self.center_a.y, self.center_b.y) - self.radius,
                z: lesser(self.center_a.z, self.center_b.z) - self.radius,
            },
            max: Vec3 {
                x: greater(self.center_a.x, self.center_b.x) + self.radius,
                y: greater(self.center_a.y, self.center_b.y) + self.radius,
                z: greater(self.center_a.z, self.center_b.z) + self.radius,
            },
        }
    }

    /// The id of the object that the cylinder annotates.
    pub fn get_object_id(&self) -> (id: u16)
        ensures
            id == self.object_id,
    {
        self.object_id
    }
}

/// A number whose square is at most the square of a bound that is not
/// negative lies within the bound.
pub proof fn lemma_square_bound(w: int, b: int)
    requires
        0 <= b,
        w * w <= b * b,
    ensures
        -b <= w <= b,
{
    assert(w > b ==> w * w > b * b) by (nonlinear_arith)
        requires
            0 <= b,
    ;
    assert(w < -b ==> w * w > b * b) by (nonlinear_arith)
        requires
            0 <= b,
    ;
}

/// The square of `l * d - t * a`, multiplied out.
pub proof fn lemma_perpendicular_square(l: int, t: int, d: int, a: int)
    ensures
        (l * d - t * a) * (l * d - t * a) == (l * l) * (d * d) - (2 * l * t) * (d * a) + (t * t)
            * (a * a),
{
    let x = l * d;
    let y = t * a;
    assert((x - y) * (x - y) == x * x - 2 * (x * y) + y * y) by (nonlinear_arith);
    lemma_regroup(l, d, l, d);
    lemma_regroup(l, d, t, a);
    lemma_regroup(t, a, t, a);
    assert((2 * l * t) * (d * a) == 2 * ((l * t) * (d * a))) by (nonlinear_arith);
}

/// Along one axis: a point at offset `d` from the first center, whose
/// component perpendicular to the axis is at most `r`, lies no further than
/// `r` beyond the two centers, which are `a` apart along that axis. Here `l`
/// is the squared length of the axis and `t` the projection, so that
/// `l * d - t * a` is `l` times the perpendicular component.
pub proof fn lemma_axis_within(l: int, t: int, r: int, d: int, a: int)
    requires
        0 < l,
        0 <= t <= l,
        0 <= r,
        (l * d - t * a) * (l * d - t * a) <= (l * r) * (l * r),
    ensures
        a >= 0 ==> -r <= d <= a + r,
        a < 0 ==> a - r <= d <= r,
{
    assert(0 <= l * r) by (nonlinear_arith)
        requires
            0 < l,
            0 <= r,
    ;
    lemma_square_bound(l * d - t * a, l * r);
    if a >= 0 {
        assert(0 <= t * a <= l * a) by (nonlinear_arith)
            requires
                0 <= t <= l,
                a >= 0,
        ;
        assert(d <= a + r) by (nonlinear_arith)
            requires
                l * d <= l * a + l * r,
                0 < l,
        ;
        assert(-r <= d) by (nonlinear_arith)
            requires
                l * d >= -(l * r),
                0 < l,
        ;
    } else {
        assert(l * a <= t * a <= 0) by (nonlinear_arith)
            requires
                0 <= t <= l,
                a < 0,
        ;
        assert(d <= r) by (nonlinear_arith)
            requires
                l * d <= l * r,
                0 < l,
        ;
        assert(a - r <= d) by (nonlinear_arith)
            requires
                l * d >= l * a - l * r,
                0 < l,
        ;
    }
}

impl Cylinder {
    /// The bounding box is conservative: it contains every point of the
    /// world that the cylinder contains.
    pub proof fn lemma_bounding_box_sound(self, p: Vec3)
        requires
            self.wf(),
            p.in_world(),
            self.contains(p),
        ensures
            self.bounding_box().contains(p),
    {
        let dx = p.x - self.center_a.x;
        let dy = p.y - self.center_a.y;
        let dz = p.z - self.center_a.z;
        let ax = self.center_b.x - self.center_a.x;
        let ay = self.center_b.y - self.center_a.y;
        let az = self.center_b.z - self.center_a.z;
        let l = ax * ax + ay * ay + az * az;
        let t = dx * ax + dy * ay + dz * az;
        let d2 = dx * dx + dy * dy + dz * dz;
        let r = self.radius as int;
        assert(l == inner(diff(self.center_b, self.center_a), diff(self.center_b, self.center_a)));
        assert(t == inner(diff(p, self.center_a), diff(self.center_b, self.center_a)));
        assert(d2 == inner(diff(p, self.center_a), diff(p, self.center_a)));
        assert(ax * ax >= 0 && ay * ay >= 0 && az * az >= 0) by (nonlinear_arith);
        assert(dx * dx >= 0 && dy * dy >= 0 && dz * dz >= 0) by (nonlinear_arith);
        if l == 0 {
            assert(ax == 0) by (nonlinear_arith)
                requires
                    ax * ax == 0,
            ;
            assert(ay == 0) by (nonlinear_arith)
                requires
                    ay * ay == 0,
            ;
            assert(az == 0) by (nonlinear_arith)
                requires
                    az * az == 0,
            ;
            lemma_square_bound(dx, r);
            lemma_square_bound(dy, r);
            lemma_square_bound(dz, r);
        } else {
            let wx = l * dx - t * ax;
            let wy = l * dy - t * ay;
            let wz = l * dz - t * az;
            lemma_perpendicular_square(l, t, dx, ax);
            lemma_perpendicular_square(l, t, dy, ay);
            lemma_perpendicular_square(l, t, dz, az);
            lemma_distribute(l * l, dx * dx, dy * dy, dz * dz);
            lemma_distribute(2 * l * t, dx * ax, dy * ay, dz * az);
            lemma_distribute(t * t, ax * ax, ay * ay, az * az);
            assert(wx * wx + wy * wy + wz * wz == (l * l) * d2 - (2 * l * t) * t + (t * t) * l);
            assert((l * l) * d2 - (2 * l * t) * t + (t * t) * l == l * (d2 * l - t * t))
                by (nonlinear_arith);
            assert(l * (d2 * l - t * t) <= l * (r * r * l)) by (nonlinear_arith)
                requires
                    0 < l,
                    d2 * l - t * t <= r * r * l,
            ;
            assert(l * (r * r * l) == (l * r) * (l * r)) by (nonlinear_arith);
            assert(wx * wx >= 0 && wy * wy >= 0 && wz * wz >= 0) by (nonlinear_arith);
            lemma_axis_within(l, t, r, dx, ax);
            lemma_axis_within(l, t, r, dy, ay);
            lemma_axis_within(l, t, r, dz, az);
        }
    }
}

} // verus!
