//! The oriented box: the unit cube of a local frame, placed in the world by
//! an affine transform.

use crate::linalg::{
    clamp, clamp_to_world, floor_div, lemma_distribute, lemma_mul_range, mul_wide, BoundingBox,
    Vec3, WORLD_LIMIT,
};
use vstd::arithmetic::div_mod::{lemma_div_is_ordered, lemma_div_multiples_vanish};
use vstd::arithmetic::mul::{lemma_mul_is_associative, lemma_mul_is_commutative};
use vstd::prelude::*;

verus! {

/// Bound on the translation entry of a matrix row.
pub const SHIFT_LIMIT: i64 = 0x100_0000_0000_0000;

/// One row of an affine matrix: three linear entries and the translation.
#[derive(Clone, Copy, Debug, PartialEq, Eq, Structural)]
pub struct Row {
    pub x: i64,
    pub y: i64,
    pub z: i64,
    pub w: i64,
}

/// The upper three rows of an affine 4x4 matrix, with entries counted in
/// `unit`-ths; the fourth row is `(0, 0, 0, 1)`. Applied to a world point in
/// fixed-point units it gives local coordinates in `unit`-ths.
#[derive(Clone, Copy, Debug, PartialEq, Eq, Structural)]
pub struct Mat4 {
    pub r0: Row,
    pub r1: Row,
    pub r2: Row,
    pub unit: i64,
}

/// Why an oriented box could not be built.
#[derive(Clone, Copy, Debug, PartialEq, Eq, Structural)]
pub enum BoxError {
    /// An entry of the matrix, or its unit, is out of range.
    OutOfRange,
    /// The matrix has no inverse.
    Singular,
}

/// A cuboid: the points that the inverse of its instance transform takes
/// into the unit cube.
#[derive(Clone, Copy, Debug, PartialEq, Eq, Structural)]
pub struct OrientedBox {
    pub inv_instance_matrix: Mat4,
    pub object_id: u16,
}

/// The determinant of the 2x2 matrix with rows `(a, c)` and `(d, b)`.
pub open spec fn minor(a: i64, b: i64, c: i64, d: i64) -> int {
    a * b - c * d
}

/// The absolute value.
pub open spec fn abs(v: int) -> int {
    if v < 0 {
        -v
    } else {
        v
    }
}

/// Computes `minor` for entries within the world limit.
pub fn minor_of(a: i64, b: i64, c: i64, d: i64) -> (r: i128)
    requires
        -WORLD_LIMIT <= a <= WORLD_LIMIT,
        -WORLD_LIMIT <= b <= WORLD_LIMIT,
        -WORLD_LIMIT <= c <= WORLD_LIMIT,
        -WORLD_LIMIT <= d <= WORLD_LIMIT,
    ensures
        r == minor(a, b, c, d),
        -0x200_0000_0000_0000 <= r <= 0x200_0000_0000_0000,
{
    proof {
        lemma_mul_range(a as int, b as int, 0x1000_0000, 0x1000_0000);
        lemma_mul_range(c as int, d as int, 0x1000_0000, 0x1000_0000);
        assert(0x1000_0000 * 0x1000_0000 == 0x100_0000_0000_0000);
    }
    (a as i128) * (b as i128) - (c as i128) * (d as i128)
}

/// Computes `abs`.
pub fn magnitude(v: i128) -> (r: i128)
    requires
        -0x200_0000_0000_0000 <= v <= 0x200_0000_0000_0000,
    ensures
        r == abs(v as int),
{
    if v < 0 {
        -v
    } else {
        v
    }
}

impl Row {
    /// The linear entries lie within the world limit and the translation
    /// within the shift limit.
    pub open spec fn wf(self) -> bool {
        &&& -WORLD_LIMIT <= self.x <= WORLD_LIMIT
        &&& -WORLD_LIMIT <= self.y <= WORLD_LIMIT
        &&& -WORLD_LIMIT <= self.z <= WORLD_LIMIT
        &&& -SHIFT_LIMIT <= self.w <= SHIFT_LIMIT
    }

    /// The row applied to a point with homogeneous coordinate 1.
    pub open spec fn apply(self, p: Vec3) -> int {
        self.x * p.x + self.y * p.y + self.z * p.z + self.w
    }

    /// Computes `apply`.
    pub fn apply_to(&self, p: &Vec3) -> (r: i64)
        requires
            self.wf(),
            p.in_world(),
        ensures
            r == self.apply(*p),
    {
        proof {
            lemma_mul_range(self.x as int, p.x as int, 0x1000_0000, 0x1000_0000);
            lemma_mul_range(self.y as int, p.y as int, 0x1000_0000, 0x1000_0000);
            lemma_mul_range(self.z as int, p.z as int, 0x1000_0000, 0x1000_0000);
            assert(0x1000_0000 * 0x1000_0000 == 0x100_0000_0000_0000);
        }
        self.x * p.x + self.y * p.y + self.z * p.z + self.w
    }
}

impl Mat4 {
    /// Every row is in range and the unit lies between 1 and the world limit.
    pub open spec fn wf(self) -> bool {
        &&& self.r0.wf()
        &&& self.r1.wf()
        &&& self.r2.wf()
        &&& 0 < self.unit <= WORLD_LIMIT
    }

    /// Row `k` of the adjugate of the linear part.
    pub open spec fn adjugate_row(self, k: int) -> (int, int, int) {
        let Mat4 { r0, r1, r2, unit } = self;
        if k == 0 {
            (minor(r1.y, r2.z, r1.z, r2.y), minor(r0.z, r2.y, r0.y, r2.z), minor(r0.y, r1.z, r0.z, r1.y))
        } else if k == 1 {
            (minor(r1.z, r2.x, r1.x, r2.z), minor(r0.x, r2.z, r0.z, r2.x), minor(r0.z, r1.x, r0.x, r1.z))
        } else {
            (minor(r1.x, r2.y, r1.y, r2.x), minor(r0.y, r2.x, r0.x, r2.y), minor(r0.x, r1.y, r0.y, r1.x))
        }
    }

    /// The determinant of the linear part.
    pub open spec fn det(self) -> int {
        self.r0.x * self.adjugate_row(0).0 + self.r0.y * self.adjugate_row(1).0 + self.r0.z
            * self.adjugate_row(2).0
    }

    /// The point in the local frame: the matrix applied to it, in
    /// `unit`-ths.
    pub open spec fn local(self, p: Vec3) -> Vec3 {
        Vec3 {
            x: self.r0.apply(p) as i64,
            y: self.r1.apply(p) as i64,
            z: self.r2.apply(p) as i64,
        }
    }

    /// The matrix takes the point into the unit cube of the local frame,
    /// both ends of every axis included.
    pub open spec fn takes_into_cube(self, p: Vec3) -> bool {
        &&& -self.unit <= self.r0.apply(p) <= self.unit
        &&& -self.unit <= self.r1.apply(p) <= self.unit
        &&& -self.unit <= self.r2.apply(p) <= self.unit
    }

    /// Computes `local`; no coordinate of the result is cut off.
    pub fn transform(&self, p: &Vec3) -> (q: Vec3)
        requires
            self.wf(),
            p.in_world(),
        ensures
            q == self.local(*p),
            q.x == self.r0.apply(*p),
            q.y == self.r1.apply(*p),
            q.z == self.r2.apply(*p),
    {
        Vec3 { x: self.r0.apply_to(p), y: self.r1.apply_to(p), z: self.r2.apply_to(p) }
    }

    /// The extent along world axis `k` of the unit cube's image under the
    /// inverse of this matrix, as two numerators over the common
    /// denominator `|det|`: the image's corners have coordinates
    /// `(c + s0*e0 + s1*e1 + s2*e2) / |det|` for signs `s`, so they span
    /// from `c - (|e0| + |e1| + |e2|)` to `c + (|e0| + |e1| + |e2|)`.
    pub open spec fn span(self, k: int) -> (int, int) {
        let n = self.adjugate_row(k);
        let shift = n.0 * self.r0.w + n.1 * self.r1.w + n.2 * self.r2.w;
        let c = if self.det() > 0 {
            -shift
        } else {
            shift
        };
        let e = self.unit * (abs(n.0) + abs(n.1) + abs(n.2));
        (c - e, c + e)
    }

    /// The least whole coordinate interval of the world that covers the
    /// part of `span(k) / |det|` within the world.
    pub open spec fn interval(self, k: int) -> (i64, i64) {
        let (lo, hi) = self.span(k);
        let d = abs(self.det());
        (clamp(lo / d), clamp(-((-hi) / d)))
    }

    /// Computes row `k` of the adjugate.
    pub fn adjugate_row_of(&self, k: u8) -> (n: (i128, i128, i128))
        requires
            self.wf(),
        ensures
            (n.0 as int, n.1 as int, n.2 as int) == self.adjugate_row(k as int),
            -0x200_0000_0000_0000 <= n.0 <= 0x200_0000_0000_0000,
            -0x200_0000_0000_0000 <= n.1 <= 0x200_0000_0000_0000,
            -0x200_0000_0000_0000 <= n.2 <= 0x200_0000_0000_0000,
    {
        let r0 = &self.r0;
        let r1 = &self.r1;
        let r2 = &self.r2;
        if k == 0 {
            (
                minor_of(r1.y, r2.z, r1.z, r2.y),
                minor_of(r0.z, r2.y, r0.y, r2.z),
                minor_of(r0.y, r1.z, r0.z, r1.y),
            )
        } else if k == 1 {
            (
                minor_of(r1.z, r2.x, r1.x, r2.z),
                minor_of(r0.x, r2.z, r0.z, r2.x),
                minor_of(r0.z, r1.x, r0.x, r1.z),
            )
        } else {
            (
                minor_of(r1.x, r2.y, r1.y, r2.x),
                minor_of(r0.y, r2.x, r0.x, r2.y),
                minor_of(r0.x, r1.y, r0.y, r1.x),
            )
        }
    }

    /// Computes `det`.
    pub fn determinant(&self) -> (d: i128)
        requires
            self.wf(),
        ensures
            d == self.det(),
            -0x300_0000_0000_0000_0000_0000_0000_0000 <= d
                <= 0x300_0000_0000_0000_0000_0000_0000_0000,
    {
        let n0 = self.adjugate_row_of(0);
        let n1 = self.adjugate_row_of(1);
        let n2 = self.adjugate_row_of(2);
        let a: i128 = mul_wide(self.r0.x as i128, n0.0);
        let b: i128 = mul_wide(self.r0.y as i128, n1.0);
        let c: i128 = mul_wide(self.r0.z as i128, n2.0);
        a + b + c
    }

    /// Computes `interval` for an invertible matrix.
    pub fn interval_of(&self, k: u8) -> (r: (i64, i64))
        requires
            self.wf(),
            self.det() != 0,
        ensures
            r == self.interval(k as int),
    {
        let n = self.adjugate_row_of(k);
        let det: i128 = self.determinant();
        let s0: i128 = mul_wide(n.0, self.r0.w as i128);
        let s1: i128 = mul_wide(n.1, self.r1.w as i128);
        let s2: i128 = mul_wide(n.2, self.r2.w as i128);
        let shift: i128 = s0 + s1 + s2;
        let c: i128 = if det > 0 {
            -shift
        } else {
            shift
        };
        let d: i128 = if det > 0 {
            det
        } else {
            -det
        };
        let e: i128 = mul_wide(self.unit as i128, magnitude(n.0) + magnitude(n.1) + magnitude(n.2));
        let lo: i128 = floor_div(c - e, d);
        let hi: i128 = floor_div(-(c + e), d);
        proof {
            vstd::arithmetic::div_mod::lemma_fundamental_div_mod(-(c + e) as int, d as int);
            vstd::arithmetic::div_mod::lemma_mod_bound(-(c + e) as int, d as int);
            assert(-0x7000_0000_0000_0000_0000_0000_0000_0000 <= hi
                <= 0x7000_0000_0000_0000_0000_0000_0000_0000) by (nonlinear_arith)
                requires
                    -(c + e) as int == d * hi + (-(c + e) as int) % (d as int),
                    0 <= (-(c + e) as int) % (d as int) < d,
                    d >= 1,
                    -0x4000_0000_0000_0000_0000_0000_0000_0000 <= -(c + e)
                        <= 0x4000_0000_0000_0000_0000_0000_0000_0000,
            ;
        }
        (clamp_to_world(lo), clamp_to_world(-hi))
    }
}

impl OrientedBox {
    /// The matrix is in range and has an inverse.
    pub open spec fn wf(self) -> bool {
        &&& self.inv_instance_matrix.wf()
        &&& self.inv_instance_matrix.det() != 0
    }

    /// Exact containment: the inverse instance transform takes the point
    /// into the unit cube of the local frame.
    pub open spec fn contains(self, p: Vec3) -> bool {
        self.inv_instance_matrix.takes_into_cube(p)
    }

    /// For a point of the world, containment is the base cube's
    /// containment of the point in the local frame.
    pub proof fn lemma_contains_is_local_in_base_cube(self, p: Vec3)
        requires
            self.wf(),
            p.in_world(),
        ensures
            self.contains(p) <==> BoundingBox::base_cube(self.inv_instance_matrix.unit).contains(
                self.inv_instance_matrix.local(p),
            ),
    {
        let m = self.inv_instance_matrix;
        m.r0.lemma_apply_range(p);
        m.r1.lemma_apply_range(p);
        m.r2.lemma_apply_range(p);
    }

    /// The least box of whole world coordinates around the part of the
    /// cuboid that lies in the world.
    pub open spec fn bounding_box(self) -> BoundingBox {
        let m = self.inv_instance_matrix;
        BoundingBox {
            min: Vec3 { x: m.interval(0).0, y: m.interval(1).0, z: m.interval(2).0 },
            max: Vec3 { x: m.interval(0).1, y: m.interval(1).1, z: m.interval(2).1 },
        }
    }

    /// Builds the box from the inverse of its instance transform. An entry
    /// out of range is refused, and so is a matrix without an inverse.
    pub fn new(inv_instance_matrix: Mat4, object_id: u16) -> (b: Result<OrientedBox, BoxError>)
        ensures
            b.is_ok() <==> (OrientedBox { inv_instance_matrix, object_id }).wf(),
            b.is_ok() ==> b.unwrap() == (OrientedBox { inv_instance_matrix, object_id }),
            !inv_instance_matrix.wf() ==> b == Err::<OrientedBox, BoxError>(BoxError::OutOfRange),
            inv_instance_matrix.wf() && inv_instance_matrix.det() == 0 ==> b == Err::<
                OrientedBox,
                BoxError,
            >(BoxError::Singular),
    {
        if !inv_instance_matrix.is_wf() {
            Err(BoxError::OutOfRange)
        } else if inv_instance_matrix.determinant() == 0 {
            Err(BoxError::Singular)
        } else {
            Ok(OrientedBox { inv_instance_matrix, object_id })
        }
    }

    /// Decides `contains` for a point of the world.
    pub fn contains_point(&self, p: &Vec3) -> (r: bool)
        requires
            self.wf(),
            p.in_world(),
        ensures
            r == self.contains(*p),
    {
        let m = &self.inv_instance_matrix;
        let local = m.transform(p);
        BoundingBox::get_base_cube_bounding_box(m.unit).contains_point(&local)
    }

    /// Computes `bounding_box`.
    pub fn create_bounding_box(&self) -> (b: BoundingBox)
        requires
            self.wf(),
        ensures
            b == self.bounding_box(),
    {
        let x = self.inv_instance_matrix.interval_of(0);
        let y = self.inv_instance_matrix.interval_of(1);
        let z = self.inv_instance_matrix.interval_of(2);
        BoundingBox {
            min: Vec3 { x: x.0, y: y.0, z: z.0 },
            max: Vec3 { x: x.1, y: y.1, z: z.1 },
        }
    }

    /// The id of the object that the box annotates.
    pub fn get_object_id(&self) -> (id: u16)
        ensures
            id == self.object_id,
    {
        self.object_id
    }
}

impl Row {
    /// Applied to a point of the world, a row in range gives a value that
    /// a coordinate can hold.
    pub proof fn lemma_apply_range(self, p: Vec3)
        requires
            self.wf(),
            p.in_world(),
        ensures
            -0x400_0000_0000_0000 <= self.apply(p) <= 0x400_0000_0000_0000,
    {
        lemma_mul_range(self.x as int, p.x as int, 0x1000_0000, 0x1000_0000);
        lemma_mul_range(self.y as int, p.y as int, 0x1000_0000, 0x1000_0000);
        lemma_mul_range(self.z as int, p.z as int, 0x1000_0000, 0x1000_0000);
        assert(0x1000_0000 * 0x1000_0000 == 0x100_0000_0000_0000);
    }

    /// Decides `wf`.
    pub fn is_wf(&self) -> (r: bool)
        ensures
            r == self.wf(),
    {
        -WORLD_LIMIT <= self.x && self.x <= WORLD_LIMIT && -WORLD_LIMIT <= self.y && self.y
            <= WORLD_LIMIT && -WORLD_LIMIT <= self.z && self.z <= WORLD_LIMIT && -SHIFT_LIMIT
            <= self.w && self.w <= SHIFT_LIMIT
    }
}

impl Mat4 {
    /// Decides `wf`.
    pub fn is_wf(&self) -> (r: bool)
        ensures
            r == self.wf(),
    {
        self.r0.is_wf() && self.r1.is_wf() && self.r2.is_wf() && 0 < self.unit && self.unit
            <= WORLD_LIMIT
    }
}

/// A product of three factors in a fixed grouping, so that the terms of a
/// determinant can be told apart.
pub open spec fn triple(a: int, b: int, c: int) -> int {
    a * (b * c)
}

/// `triple` does not depend on the order of its factors.
pub proof fn lemma_triple_symmetric(a: int, b: int, c: int)
    ensures
        triple(a, b, c) == triple(a, c, b),
        triple(a, b, c) == triple(b, a, c),
        triple(a, b, c) == triple(b, c, a),
        triple(a, b, c) == triple(c, a, b),
        triple(a, b, c) == triple(c, b, a),
{
    lemma_mul_is_commutative(b, c);
    lemma_mul_is_associative(a, b, c);
    lemma_mul_is_commutative(a, b);
    lemma_mul_is_associative(b, a, c);
    lemma_mul_is_commutative(a, c);
    lemma_mul_is_associative(a, c, b);
    lemma_mul_is_associative(c, a, b);
    lemma_mul_is_associative(b, c, a);
    lemma_mul_is_associative(c, b, a);
}

/// A 2x2 minor times a factor, as a difference of two `triple`s.
pub proof fn lemma_minor_times(a: int, b: int, c: int, d: int, x: int)
    ensures
        (a * b - c * d) * x == triple(x, a, b) - triple(x, c, d),
{
    assert((a * b - c * d) * x == x * (a * b) - x * (c * d)) by (nonlinear_arith);
}

/// The adjugate of a 3x3 matrix times the matrix is the determinant times
/// the identity. The matrix has rows `(a, b, c)`, `(d, e, f)`, `(g, h, i)`.
pub proof fn lemma_adjugate(a: int, b: int, c: int, d: int, e: int, f: int, g: int, h: int, i: int)
    ensures
        ({
            let det = a * (e * i - f * h) + b * (f * g - d * i) + c * (d * h - e * g);
            &&& (e * i - f * h) * a + (c * h - b * i) * d + (b * f - c * e) * g == det
            &&& (e * i - f * h) * b + (c * h - b * i) * e + (b * f - c * e) * h == 0
            &&& (e * i - f * h) * c + (c * h - b * i) * f + (b * f - c * e) * i == 0
            &&& (f * g - d * i) * a + (a * i - c * g) * d + (c * d - a * f) * g == 0
            &&& (f * g - d * i) * b + (a * i - c * g) * e + (c * d - a * f) * h == det
            &&& (f * g - d * i) * c + (a * i - c * g) * f + (c * d - a * f) * i == 0
            &&& (d * h - e * g) * a + (b * g - a * h) * d + (a * e - b * d) * g == 0
            &&& (d * h - e * g) * b + (b * g - a * h) * e + (a * e - b * d) * h == 0
            &&& (d * h - e * g) * c + (b * g - a * h) * f + (a * e - b * d) * i == det
        }),
{
    lemma_minor_times(a, e, b, d, g);
    lemma_minor_times(a, e, b, d, h);
    lemma_minor_times(a, e, b, d, i);
    lemma_minor_times(a, i, c, g, d);
    lemma_minor_times(a, i, c, g, e);
    lemma_minor_times(a, i, c, g, f);
    lemma_minor_times(b, f, c, e, g);
    lemma_minor_times(b, f, c, e, h);
    lemma_minor_times(b, f, c, e, i);
    lemma_minor_times(b, g, a, h, d);
    lemma_minor_times(b, g, a, h, e);
    lemma_minor_times(b, g, a, h, f);
    lemma_minor_times(c, d, a, f, g);
    lemma_minor_times(c, d, a, f, h);
    lemma_minor_times(c, d, a, f, i);
    lemma_minor_times(c, h, b, i, d);
    lemma_minor_times(c, h, b, i, e);
    lemma_minor_times(c, h, b, i, f);
    lemma_minor_times(d, h, e, g, a);
    lemma_minor_times(d, h, e, g, b);
    lemma_minor_times(d, h, e, g, c);
    lemma_minor_times(e, i, f, h, a);
    lemma_minor_times(e, i, f, h, b);
    lemma_minor_times(e, i, f, h, c);
    lemma_minor_times(f, g, d, i, a);
    lemma_minor_times(f, g, d, i, b);
    lemma_minor_times(f, g, d, i, c);
    lemma_mul_is_commutative(a, e * i - f * h);
    lemma_mul_is_commutative(b, f * g - d * i);
    lemma_mul_is_commutative(c, d * h - e * g);
    lemma_triple_symmetric(a, d, h);
    lemma_triple_symmetric(a, d, i);
    lemma_triple_symmetric(a, e, g);
    lemma_triple_symmetric(a, e, h);
    lemma_triple_symmetric(a, e, i);
    lemma_triple_symmetric(a, f, g);
    lemma_triple_symmetric(a, f, h);
    lemma_triple_symmetric(a, f, i);
    lemma_triple_symmetric(b, d, g);
    lemma_triple_symmetric(b, d, h);
    lemma_triple_symmetric(b, d, i);
    lemma_triple_symmetric(b, e, g);
    lemma_triple_symmetric(b, e, i);
    lemma_triple_symmetric(b, f, g);
    lemma_triple_symmetric(b, f, h);
    lemma_triple_symmetric(b, f, i);
    lemma_triple_symmetric(c, d, g);
    lemma_triple_symmetric(c, d, h);
    lemma_triple_symmetric(c, d, i);
    lemma_triple_symmetric(c, e, g);
    lemma_triple_symmetric(c, e, h);
    lemma_triple_symmetric(c, e, i);
    lemma_triple_symmetric(c, f, g);
    lemma_triple_symmetric(c, f, h);
}

/// A factor times a row applied to a point, term by term.
pub proof fn lemma_scale_row(n: int, x: int, y: int, z: int, px: int, py: int, pz: int)
    ensures
        n * (x * px + y * py + z * pz) == (n * x) * px + (n * y) * py + (n * z) * pz,
{
    lemma_distribute(n, x * px, y * py, z * pz);
    lemma_mul_is_associative(n, x, px);
    lemma_mul_is_associative(n, y, py);
    lemma_mul_is_associative(n, z, pz);
}

/// A sum of three times a factor, term by term.
pub proof fn lemma_collect(a: int, b: int, c: int, k: int)
    ensures
        (a + b + c) * k == a * k + b * k + c * k,
{
    assert((a + b + c) * k == a * k + b * k + c * k) by (nonlinear_arith);
}

/// Rounding an interval of numerators outwards keeps what lies between
/// them: with `lo <= d * v <= hi`, the floor of `lo / d` is at most `v` and
/// the ceiling of `hi / d` at least `v`.
pub proof fn lemma_rounded_interval(lo: int, hi: int, d: int, v: int)
    requires
        0 < d,
        lo <= d * v <= hi,
    ensures
        lo / d <= v <= -((-hi) / d),
{
    lemma_div_is_ordered(lo, d * v, d);
    lemma_div_multiples_vanish(v, d);
    assert(d * (-v) == -(d * v)) by (nonlinear_arith);
    lemma_div_is_ordered(-hi, d * (-v), d);
    lemma_div_multiples_vanish(-v, d);
}

impl Mat4 {
    /// The inverse by the adjugate: with `n` row `k` of the adjugate and
    /// `q` the point in the local frame, `n . q` is `det` times coordinate
    /// `k` of the point plus `n . w`, for `w` the translation.
    pub proof fn lemma_inverse_numerator(self, k: int, p: Vec3)
        requires
            0 <= k < 3,
        ensures
            ({
                let n = self.adjugate_row(k);
                n.0 * self.r0.apply(p) + n.1 * self.r1.apply(p) + n.2 * self.r2.apply(p)
                    == self.det() * p.axis(k) + (n.0 * self.r0.w + n.1 * self.r1.w + n.2
                    * self.r2.w)
            }),
    {
        let Mat4 { r0, r1, r2, unit } = self;
        let n = self.adjugate_row(k);
        let (px, py, pz) = (p.x as int, p.y as int, p.z as int);
        let v = p.axis(k);
        let det = self.det();
        lemma_adjugate(
            r0.x as int,
            r0.y as int,
            r0.z as int,
            r1.x as int,
            r1.y as int,
            r1.z as int,
            r2.x as int,
            r2.y as int,
            r2.z as int,
        );
        let l0 = r0.x * px + r0.y * py + r0.z * pz;
        let l1 = r1.x * px + r1.y * py + r1.z * pz;
        let l2 = r2.x * px + r2.y * py + r2.z * pz;
        let q0 = r0.apply(p);
        let q1 = r1.apply(p);
        let q2 = r2.apply(p);
        lemma_scale_row(n.0, r0.x as int, r0.y as int, r0.z as int, px, py, pz);
        lemma_scale_row(n.1, r1.x as int, r1.y as int, r1.z as int, px, py, pz);
        lemma_scale_row(n.2, r2.x as int, r2.y as int, r2.z as int, px, py, pz);
        lemma_collect(n.0 * r0.x, n.1 * r1.x, n.2 * r2.x, px);
        lemma_collect(n.0 * r0.y, n.1 * r1.y, n.2 * r2.y, py);
        lemma_collect(n.0 * r0.z, n.1 * r1.z, n.2 * r2.z, pz);
        let sx = n.0 * r0.x + n.1 * r1.x + n.2 * r2.x;
        let sy = n.0 * r0.y + n.1 * r1.y + n.2 * r2.y;
        let sz = n.0 * r0.z + n.1 * r1.z + n.2 * r2.z;
        assert(n.0 * l0 + n.1 * l1 + n.2 * l2 == sx * px + sy * py + sz * pz);
        assert(sx == if k == 0 { det } else { 0 });
        assert(sy == if k == 1 { det } else { 0 });
        assert(sz == if k == 2 { det } else { 0 });
        assert(sx * px + sy * py + sz * pz == det * v) by (nonlinear_arith)
            requires
                sx == if k == 0 { det } else { 0 },
                sy == if k == 1 { det } else { 0 },
                sz == if k == 2 { det } else { 0 },
                v == if k == 0 { px } else if k == 1 { py } else { pz },
                0 <= k < 3,
        ;
        assert(n.0 * q0 == n.0 * l0 + n.0 * r0.w) by (nonlinear_arith)
            requires
                q0 == l0 + r0.w,
        ;
        assert(n.1 * q1 == n.1 * l1 + n.1 * r1.w) by (nonlinear_arith)
            requires
                q1 == l1 + r1.w,
        ;
        assert(n.2 * q2 == n.2 * l2 + n.2 * r2.w) by (nonlinear_arith)
            requires
                q2 == l2 + r2.w,
        ;
    }

    /// The numerator, over `|det|`, of coordinate `k` of the image under
    /// the inverse of this matrix of the unit cube's corner with signs `s`.
    pub open spec fn corner(self, k: int, s: (int, int, int)) -> int {
        let n = self.adjugate_row(k);
        let v = self.unit * (n.0 * s.0 + n.1 * s.1 + n.2 * s.2) - (n.0 * self.r0.w + n.1
            * self.r1.w + n.2 * self.r2.w);
        if self.det() > 0 {
            v
        } else {
            -v
        }
    }

    /// A point that the matrix takes to the corner with signs `s` of the
    /// unit cube has `corner(k, s) / |det|` for its coordinate `k`.
    pub proof fn lemma_corner_is_image(self, k: int, s: (int, int, int), p: Vec3)
        requires
            0 <= k < 3,
            self.r0.apply(p) == self.unit * s.0,
            self.r1.apply(p) == self.unit * s.1,
            self.r2.apply(p) == self.unit * s.2,
        ensures
            abs(self.det()) * p.axis(k) == self.corner(k, s),
    {
        let n = self.adjugate_row(k);
        let u = self.unit as int;
        self.lemma_inverse_numerator(k, p);
        lemma_mul_is_associative(n.0, u, s.0);
        lemma_mul_is_associative(n.1, u, s.1);
        lemma_mul_is_associative(n.2, u, s.2);
        lemma_mul_is_commutative(n.0, u);
        lemma_mul_is_commutative(n.1, u);
        lemma_mul_is_commutative(n.2, u);
        lemma_mul_is_associative(u, n.0, s.0);
        lemma_mul_is_associative(u, n.1, s.1);
        lemma_mul_is_associative(u, n.2, s.2);
        lemma_distribute(u, n.0 * s.0, n.1 * s.1, n.2 * s.2);
        let det = self.det();
        let v = p.axis(k);
        assert(abs(det) * v == if det > 0 { det * v } else { -(det * v) }) by (nonlinear_arith);
    }

    /// `span` is the extent of the eight corners: every corner lies within
    /// it, and the two corners returned lie at its two ends.
    pub proof fn lemma_span_is_extent_of_corners(self, k: int, s: (int, int, int)) -> (ends: (
        (int, int, int),
        (int, int, int),
    ))
        requires
            0 < self.unit,
            s.0 == 1 || s.0 == -1,
            s.1 == 1 || s.1 == -1,
            s.2 == 1 || s.2 == -1,
        ensures
            self.span(k).0 <= self.corner(k, s) <= self.span(k).1,
            ends.0.0 == 1 || ends.0.0 == -1,
            ends.0.1 == 1 || ends.0.1 == -1,
            ends.0.2 == 1 || ends.0.2 == -1,
            ends.1 == (-ends.0.0, -ends.0.1, -ends.0.2),
            self.corner(k, ends.0) == self.span(k).0,
            self.corner(k, ends.1) == self.span(k).1,
    {
        let n = self.adjugate_row(k);
        let u = self.unit as int;
        let a = abs(n.0) + abs(n.1) + abs(n.2);
        let up = (
            if n.0 >= 0 { 1int } else { -1int },
            if n.1 >= 0 { 1int } else { -1int },
            if n.2 >= 0 { 1int } else { -1int },
        );
        let down = (-up.0, -up.1, -up.2);
        assert(n.0 * 1 == n.0 && n.0 * (-1) == -n.0) by (nonlinear_arith);
        assert(n.1 * 1 == n.1 && n.1 * (-1) == -n.1) by (nonlinear_arith);
        assert(n.2 * 1 == n.2 && n.2 * (-1) == -n.2) by (nonlinear_arith);
        let t = n.0 * s.0 + n.1 * s.1 + n.2 * s.2;
        assert(-a <= t <= a);
        lemma_mul_range(u, t, u, a);
        assert(n.0 * up.0 + n.1 * up.1 + n.2 * up.2 == a);
        assert(n.0 * down.0 + n.1 * down.1 + n.2 * down.2 == -a);
        assert(u * (-a) == -(u * a)) by (nonlinear_arith);
        if self.det() > 0 {
            (down, up)
        } else {
            (up, down)
        }
    }

    /// Along world axis `k`, a point of the world that the matrix takes
    /// into the unit cube lies within `interval(k)`.
    pub proof fn lemma_interval_sound(self, k: int, p: Vec3)
        requires
            self.wf(),
            self.det() != 0,
            p.in_world(),
            self.takes_into_cube(p),
            0 <= k < 3,
        ensures
            self.interval(k).0 <= p.axis(k) <= self.interval(k).1,
    {
        let Mat4 { r0, r1, r2, unit } = self;
        let n = self.adjugate_row(k);
        let v = p.axis(k);
        let det = self.det();
        let q0 = r0.apply(p);
        let q1 = r1.apply(p);
        let q2 = r2.apply(p);
        let shift = n.0 * r0.w + n.1 * r1.w + n.2 * r2.w;
        self.lemma_inverse_numerator(k, p);
        assert(n.0 * q0 + n.1 * q1 + n.2 * q2 == det * v + shift);
        lemma_mul_range(n.0, q0, abs(n.0), unit as int);
        lemma_mul_range(n.1, q1, abs(n.1), unit as int);
        lemma_mul_range(n.2, q2, abs(n.2), unit as int);
        lemma_collect(abs(n.0), abs(n.1), abs(n.2), unit as int);
        lemma_mul_is_commutative(unit as int, abs(n.0) + abs(n.1) + abs(n.2));
        let e = unit * (abs(n.0) + abs(n.1) + abs(n.2));
        assert(-e <= det * v + shift <= e);
        let (lo, hi) = self.span(k);
        let d = abs(det);
        assert(d * v == if det > 0 { det * v } else { -(det * v) }) by (nonlinear_arith)
            requires
                d == if det > 0 { det } else { -det },
        ;
        lemma_rounded_interval(lo, hi, d, v);
    }
}

impl OrientedBox {
    /// The bounding box is conservative: it contains every point of the
    /// world that the oriented box contains.
    pub proof fn lemma_bounding_box_sound(self, p: Vec3)
        requires
            self.wf(),
            p.in_world(),
            self.contains(p),
        ensures
            self.bounding_box().contains(p),
    {
        self.inv_instance_matrix.lemma_interval_sound(0, p);
        self.inv_instance_matrix.lemma_interval_sound(1, p);
        self.inv_instance_matrix.lemma_interval_sound(2, p);
    }
}

impl Mat4 {
    /// The identity transform, with local coordinates counted in
    /// `unit`-ths.
    pub open spec fn identity_of(unit: i64) -> Mat4 {
        Mat4 {
            r0: Row { x: 1, y: 0, z: 0, w: 0 },
            r1: Row { x: 0, y: 1, z: 0, w: 0 },
            r2: Row { x: 0, y: 0, z: 1, w: 0 },
            unit,
        }
    }

    /// Builds `identity_of`.
    pub fn identity(unit: i64) -> (m: Mat4)
        ensures
            m == Mat4::identity_of(unit),
    {
        Mat4 {
            r0: Row { x: 1, y: 0, z: 0, w: 0 },
            r1: Row { x: 0, y: 1, z: 0, w: 0 },
            r2: Row { x: 0, y: 0, z: 1, w: 0 },
            unit,
        }
    }
}

impl OrientedBox {
    /// Under the identity transform the box is the base cube: it contains
    /// exactly the points within `[-unit, unit]^3`, and that cube is its
    /// bounding box.
    pub proof fn lemma_identity_is_base_cube(unit: i64, object_id: u16, p: Vec3)
        requires
            0 < unit <= WORLD_LIMIT,
        ensures
            (OrientedBox { inv_instance_matrix: Mat4::identity_of(unit), object_id }).wf(),
            (OrientedBox { inv_instance_matrix: Mat4::identity_of(unit), object_id }).contains(p)
                <==> BoundingBox::base_cube(unit).contains(p),
            (OrientedBox {
                inv_instance_matrix: Mat4::identity_of(unit),
                object_id,
            }).bounding_box() == BoundingBox::base_cube(unit),
    {
        let m = Mat4::identity_of(unit);
        assert(m.adjugate_row(0) == (1int, 0int, 0int));
        assert(m.adjugate_row(1) == (0int, 1int, 0int));
        assert(m.adjugate_row(2) == (0int, 0int, 1int));
        assert(m.det() == 1);
        let u = unit as int;
        assert(abs(1) + abs(0) + abs(0) == 1 && abs(0) + abs(1) + abs(0) == 1 && abs(0) + abs(0)
            + abs(1) == 1);
        assert(u * 1 == u);
        assert(m.span(0) == (-u, u));
        assert(m.span(1) == (-u, u));
        assert(m.span(2) == (-u, u));
        assert(abs(m.det()) == 1);
        assert((-u) / 1 == -u && u / 1 == u);
        assert(m.interval(0) == ((-unit) as i64, unit));
        assert(m.interval(1) == ((-unit) as i64, unit));
        assert(m.interval(2) == ((-unit) as i64, unit));
    }
}

} // verus!
