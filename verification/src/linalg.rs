//! Fixed-point 3-vectors and axis-aligned bounding boxes.
//!
//! Every coordinate is a whole number of fixed-point units, so that all
//! geometric predicates are decided exactly.

use vstd::prelude::*;

verus! {

/// Largest coordinate magnitude of a point that can be classified. Points
/// beyond it lie outside the world and belong to no shape.
pub const WORLD_LIMIT: i64 = 0x1000_0000;

/// A 3-D coordinate in fixed-point units.
#[derive(Clone, Copy, Debug, PartialEq, Eq, Structural)]
pub struct Vec3 {
    pub x: i64,
    pub y: i64,
    pub z: i64,
}

impl Vec3 {
    /// Whether every component lies within the world limit.
    pub open spec fn in_world(self) -> bool {
        &&& -WORLD_LIMIT <= self.x <= WORLD_LIMIT
        &&& -WORLD_LIMIT <= self.y <= WORLD_LIMIT
        &&& -WORLD_LIMIT <= self.z <= WORLD_LIMIT
    }

    /// Whether every component lies within twice the world limit.
    pub open spec fn in_span(self) -> bool {
        &&& -SPAN_LIMIT <= self.x <= SPAN_LIMIT
        &&& -SPAN_LIMIT <= self.y <= SPAN_LIMIT
        &&& -SPAN_LIMIT <= self.z <= SPAN_LIMIT
    }

    /// The component along axis `k` (0 for x, 1 for y, anything else for z).
    pub open spec fn axis(self, k: int) -> int {
        if k == 0 {
            self.x as int
        } else if k == 1 {
            self.y as int
        } else {
            self.z as int
        }
    }

    /// The vector with the given components.
    pub fn new(x: i64, y: i64, z: i64) -> (v: Vec3)
        ensures
            v == (Vec3 { x, y, z }),
    {
        Vec3 { x, y, z }
    }

    /// Decides `in_world`.
    pub fn is_in_world(&self) -> (r: bool)
        ensures
            r == self.in_world(),
    {
        -WORLD_LIMIT <= self.x && self.x <= WORLD_LIMIT && -WORLD_LIMIT <= self.y && self.y
            <= WORLD_LIMIT && -WORLD_LIMIT <= self.z && self.z <= WORLD_LIMIT
    }

    /// Reads the component along axis `k`.
    pub fn get(&self, k: u8) -> (c: i64)
        ensures
            c == self.axis(k as int),
    {
        if k == 0 {
            self.x
        } else if k == 1 {
            self.y
        } else {
            self.z
        }
    }
}

/// The scalar product of two vectors.
pub open spec fn dot(a: Vec3, b: Vec3) -> int {
    a.x * b.x + a.y * b.y + a.z * b.z
}

/// A product is bounded by the product of its factors' bounds.
pub proof fn lemma_mul_range(a: int, b: int, m: int, n: int)
    requires
        -m <= a <= m,
        -n <= b <= n,
    ensures
        -(m * n) <= a * b <= m * n,
{
    assert((m - a) * (n + b) >= 0) by (nonlinear_arith)
        requires
            m - a >= 0,
            n + b >= 0,
    ;
    assert((m + a) * (n - b) >= 0) by (nonlinear_arith)
        requires
            m + a >= 0,
            n - b >= 0,
    ;
    assert((m - a) * (n - b) >= 0) by (nonlinear_arith)
        requires
            m - a >= 0,
            n - b >= 0,
    ;
    assert((m + a) * (n + b) >= 0) by (nonlinear_arith)
        requires
            m + a >= 0,
            n + b >= 0,
    ;
    assert((m - a) * (n + b) == m * n + m * b - a * n - a * b) by (nonlinear_arith);
    assert((m + a) * (n - b) == m * n - m * b + a * n - a * b) by (nonlinear_arith);
    assert((m - a) * (n - b) == m * n - m * b - a * n + a * b) by (nonlinear_arith);
    assert((m + a) * (n + b) == m * n + m * b + a * n + a * b) by (nonlinear_arith);
}

/// A factor distributes over a sum of three.
pub proof fn lemma_distribute(k: int, a: int, b: int, c: int)
    ensures
        k * (a + b + c) == k * a + k * b + k * c,
{
    assert(k * (a + b + c) == k * a + k * b + k * c) by (nonlinear_arith);
}

/// A product of two products, regrouped.
pub proof fn lemma_regroup(a: int, b: int, c: int, d: int)
    ensures
        (a * b) * (c * d) == (a * c) * (b * d),
{
    vstd::arithmetic::mul::lemma_mul_is_associative(a, b, c * d);
    vstd::arithmetic::mul::lemma_mul_is_associative(b, c, d);
    vstd::arithmetic::mul::lemma_mul_is_commutative(b, c);
    vstd::arithmetic::mul::lemma_mul_is_associative(c, b, d);
    vstd::arithmetic::mul::lemma_mul_is_associative(a, c, b * d);
}

/// Twice the world limit: bounds the difference of two points of the world.
pub const SPAN_LIMIT: i64 = 0x2000_0000;

/// The vector from `b` to `a`, both within the world.
pub fn minus(a: &Vec3, b: &Vec3) -> (d: Vec3)
    requires
        a.in_world(),
        b.in_world(),
    ensures
        d.x == a.x - b.x,
        d.y == a.y - b.y,
        d.z == a.z - b.z,
        d.in_span(),
{
    Vec3 { x: a.x - b.x, y: a.y - b.y, z: a.z - b.z }
}

/// The scalar product of two differences of points of the world.
pub fn dot_product(a: &Vec3, b: &Vec3) -> (r: i128)
    requires
        a.in_span(),
        b.in_span(),
    ensures
        r == dot(*a, *b),
        -0xC00_0000_0000_0000 <= r <= 0xC00_0000_0000_0000,
{
    proof {
        lemma_mul_range(a.x as int, b.x as int, 0x2000_0000, 0x2000_0000);
        lemma_mul_range(a.y as int, b.y as int, 0x2000_0000, 0x2000_0000);
        lemma_mul_range(a.z as int, b.z as int, 0x2000_0000, 0x2000_0000);
        assert(0x2000_0000 * 0x2000_0000 == 0x400_0000_0000_0000);
    }
    let x: i128 = (a.x as i128) * (b.x as i128);
    let y: i128 = (a.y as i128) * (b.y as i128);
    let z: i128 = (a.z as i128) * (b.z as i128);
    x + y + z
}

/// Bound on the factors of `mul_wide`.
pub const WIDE_LIMIT: i128 = 0x1000_0000_0000_0000;

/// The product of two factors within `WIDE_LIMIT`.
pub fn mul_wide(a: i128, b: i128) -> (r: i128)
    requires
        -WIDE_LIMIT <= a <= WIDE_LIMIT,
        -WIDE_LIMIT <= b <= WIDE_LIMIT,
    ensures
        r == a * b,
        -0x100_0000_0000_0000_0000_0000_0000_0000 <= r <= 0x100_0000_0000_0000_0000_0000_0000_0000,
{
    proof {
        lemma_mul_range(a as int, b as int, 0x1000_0000_0000_0000, 0x1000_0000_0000_0000);
        assert(0x1000_0000_0000_0000 * 0x1000_0000_0000_0000
            == 0x100_0000_0000_0000_0000_0000_0000_0000);
    }
    a * b
}

/// The quotient rounded towards minus infinity.
pub fn floor_div(n: i128, d: i128) -> (q: i128)
    requires
        0 < d,
        -0x4000_0000_0000_0000_0000_0000_0000_0000 <= n,
    ensures
        q == n as int / d as int,
{
    if n >= 0 {
        n / d
    } else {
        let m: i128 = -n - 1;
        let k: i128 = m / d;
        proof {
            let r = m as int % d as int;
            vstd::arithmetic::div_mod::lemma_fundamental_div_mod(m as int, d as int);
            assert(n as int == (d as int) * (-k - 1) + (d - 1 - r)) by (nonlinear_arith)
                requires
                    m as int == (d as int) * (k as int) + r,
                    m == -n - 1,
            ;
            vstd::arithmetic::div_mod::lemma_fundamental_div_mod_converse(
                n as int,
                d as int,
                -k - 1,
                d - 1 - r,
            );
        }
        -k - 1
    }
}

/// The nearest value that a coordinate can hold.
pub open spec fn saturate(v: int) -> i64 {
    if v < i64::MIN {
        i64::MIN
    } else if v > i64::MAX {
        i64::MAX
    } else {
        v as i64
    }
}

/// The sum of two coordinates, held to the range of a coordinate.
pub fn saturating_sum(a: i64, b: i64) -> (s: i64)
    ensures
        s == saturate(a + b),
{
    let wide: i128 = a as i128 + b as i128;
    if wide < i64::MIN as i128 {
        i64::MIN
    } else if wide > i64::MAX as i128 {
        i64::MAX
    } else {
        wide as i64
    }
}

/// The nearest coordinate of the world's range.
pub open spec fn clamp(v: int) -> i64 {
    if v < -WORLD_LIMIT {
        (-WORLD_LIMIT) as i64
    } else if v > WORLD_LIMIT {
        WORLD_LIMIT
    } else {
        v as i64
    }
}

/// Computes `clamp`.
pub fn clamp_to_world(v: i128) -> (c: i64)
    ensures
        c == clamp(v as int),
{
    if v < -(WORLD_LIMIT as i128) {
        -WORLD_LIMIT
    } else if v > WORLD_LIMIT as i128 {
        WORLD_LIMIT
    } else {
        v as i64
    }
}

/// An axis-aligned box given by its two extreme corners.
#[derive(Clone, Copy, Debug, PartialEq, Eq, Structural)]
pub struct BoundingBox {
    pub min: Vec3,
    pub max: Vec3,
}

/// The smaller of two coordinates.
pub open spec fn min_of(a: i64, b: i64) -> i64 {
    if a <= b {
        a
    } else {
        b
    }
}

/// The larger of two coordinates.
pub open spec fn max_of(a: i64, b: i64) -> i64 {
    if a >= b {
        a
    } else {
        b
    }
}

/// Computes `min_of`.
pub fn lesser(a: i64, b: i64) -> (m: i64)
    ensures
        m == min_of(a, b),
{
    if a <= b {
        a
    } else {
        b
    }
}

/// Computes `max_of`.
pub fn greater(a: i64, b: i64) -> (m: i64)
    ensures
        m == max_of(a, b),
{
    if a >= b {
        a
    } else {
        b
    }
}

impl BoundingBox {
    /// The box is not inverted on any axis.
    pub open spec fn wf(self) -> bool {
        &&& self.min.x <= self.max.x
        &&& self.min.y <= self.max.y
        &&& self.min.z <= self.max.z
    }

    /// The point lies in the closed box: both ends of every axis count.
    pub open spec fn contains(self, p: Vec3) -> bool {
        &&& self.min.x <= p.x <= self.max.x
        &&& self.min.y <= p.y <= self.max.y
        &&& self.min.z <= p.z <= self.max.z
    }

    /// The smallest box that encloses both `self` and `other`.
    pub open spec fn hull(self, other: BoundingBox) -> BoundingBox {
        BoundingBox {
            min: Vec3 {
                x: min_of(self.min.x, other.min.x),
                y: min_of(self.min.y, other.min.y),
                z: min_of(self.min.z, other.min.z),
            },
            max: Vec3 {
                x: max_of(self.max.x, other.max.x),
                y: max_of(self.max.y, other.max.y),
                z: max_of(self.max.z, other.max.z),
            },
        }
    }

    /// The cube `[-unit, unit]^3`: the unit cube of a local frame whose
    /// coordinates are counted in `unit`-ths.
    pub open spec fn base_cube(unit: i64) -> BoundingBox {
        BoundingBox {
            min: Vec3 { x: (-unit) as i64, y: (-unit) as i64, z: (-unit) as i64 },
            max: Vec3 { x: unit, y: unit, z: unit },
        }
    }

    /// Builds the box with the given corners, or nothing when `min` exceeds
    /// `max` on some axis.
    pub fn new(min: Vec3, max: Vec3) -> (b: Option<BoundingBox>)
        ensures
            b.is_some() <==> (BoundingBox { min, max }).wf(),
            b.is_some() ==> b.unwrap() == (BoundingBox { min, max }),
    {
        if min.x <= max.x && min.y <= max.y && min.z <= max.z {
            Some(BoundingBox { min, max })
        } else {
            None
        }
    }

    /// Decides `contains`.
    pub fn contains_point(&self, p: &Vec3) -> (r: bool)
        ensures
            r == self.contains(*p),
    {
        self.min.x <= p.x && p.x <= self.max.x && self.min.y <= p.y && p.y <= self.max.y
            && self.min.z <= p.z && p.z <= self.max.z
    }

    /// Computes `hull`.
    pub fn union(&self, other: &BoundingBox) -> (u: BoundingBox)
        ensures
            u == self.hull(*other),
    {
        BoundingBox {
            min: Vec3 {
                x: lesser(self.min.x, other.min.x),
                y: lesser(self.min.y, other.min.y),
                z: lesser(self.min.z, other.min.z),
            },
            max: Vec3 {
                x: greater(self.max.x, other.max.x),
                y: greater(self.max.y, other.max.y),
                z: greater(self.max.z, other.max.z),
            },
        }
    }

    /// Computes `base_cube`.
    pub fn get_base_cube_bounding_box(unit: i64) -> (b: BoundingBox)
        requires
            0 <= unit,
        ensures
            b == BoundingBox::base_cube(unit),
            b.wf(),
    {
        BoundingBox {
            min: Vec3 { x: -unit, y: -unit, z: -unit },
            max: Vec3 { x: unit, y: unit, z: unit },
        }
    }

    /// A point inside the box on every axis and on a face of it on at least
    /// one axis is contained: the bounds are inclusive.
    pub proof fn lemma_boundary_is_contained(self, p: Vec3)
        requires
            self.wf(),
            self.min.x <= p.x <= self.max.x,
            self.min.y <= p.y <= self.max.y,
            self.min.z <= p.z <= self.max.z,
            p.x == self.min.x || p.x == self.max.x || p.y == self.min.y || p.y == self.max.y
                || p.z == self.min.z || p.z == self.max.z,
        ensures
            self.contains(p),
    {
    }

    /// Both extreme corners of a well-formed box are contained in it.
    pub proof fn lemma_corners_are_contained(self)
        requires
            self.wf(),
        ensures
            self.contains(self.min),
            self.contains(self.max),
    {
    }

    /// Union is associative.
    pub proof fn lemma_hull_associative(a: BoundingBox, b: BoundingBox, c: BoundingBox)
        ensures
            a.hull(b).hull(c) == a.hull(b.hull(c)),
    {
    }

    /// Union is commutative.
    pub proof fn lemma_hull_commutative(a: BoundingBox, b: BoundingBox)
        ensures
            a.hull(b) == b.hull(a),
    {
    }

    /// Union is idempotent.
    pub proof fn lemma_hull_idempotent(a: BoundingBox)
        ensures
            a.hull(a) == a,
    {
    }

    /// The union of two well-formed boxes is well formed and contains every
    /// point that either of them contains.
    pub proof fn lemma_hull_encloses(a: BoundingBox, b: BoundingBox, p: Vec3)
        requires
            a.wf(),
            b.wf(),
        ensures
            a.hull(b).wf(),
            a.contains(p) || b.contains(p) ==> a.hull(b).contains(p),
    {
    }
}

} // verus!
