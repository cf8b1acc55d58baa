//! Ingestion: from decoded input records to points and shapes.

use crate::linalg::{saturate, saturating_sum, BoundingBox, Vec3};
use crate::shapes::cylinder::Cylinder;
use crate::shapes::oriented_box::{BoxError, Mat4, OrientedBox};
use crate::shapes::shape::Shape;
use vstd::prelude::*;

verus! {

/// The box of the world as the caller gives it.
#[derive(Clone, Copy, Debug, PartialEq, Eq, Structural)]
pub struct InputBoundingBox {
    pub min: Vec3,
    pub max: Vec3,
}

/// A cylinder as the caller gives it.
#[derive(Clone, Copy, Debug, PartialEq, Eq, Structural)]
pub struct InputCylinder {
    pub center_a: Vec3,
    pub center_b: Vec3,
    pub radius: i64,
}

/// An oriented box as the caller gives it.
#[derive(Clone, Copy, Debug, PartialEq, Eq, Structural)]
pub struct InputOrientedBox {
    pub inv_instance_matrix: Mat4,
}

/// A shape record: an object id with exactly one of the two kinds.
#[derive(Clone, Copy, Debug, PartialEq, Eq, Structural)]
pub struct InputShape {
    pub object_id: u32,
    pub cylinder: Option<InputCylinder>,
    pub oriented_box: Option<InputOrientedBox>,
}

/// Why an input was refused.
#[derive(Clone, Copy, Debug, PartialEq, Eq, Structural)]
pub enum AssignError {
    /// The point buffer's length is not a multiple of three.
    MalformedPoints,
    /// The world's box has `min` above `max` on some axis.
    MalformedBoundingBox,
    /// The record at `index` names neither kind of shape, or both.
    MalformedShape { index: usize },
    /// The object id of the record at `index` does not fit an output label.
    IdOutOfRange { index: usize },
    /// A coordinate, radius or matrix entry of the record at `index` is out
    /// of range.
    ShapeOutOfRange { index: usize },
    /// The transform of the oriented box of this object has no inverse.
    SingularTransform { object_id: u16 },
}

/// The shape that a record stands for, or why it is refused. The record
/// must name exactly one kind; its id must fit 16 bits; its geometry must
/// be in range; and an oriented box's matrix must have an inverse.
pub open spec fn convert(r: InputShape, index: usize) -> Result<Shape, AssignError> {
    if r.cylinder.is_some() == r.oriented_box.is_some() {
        Err(AssignError::MalformedShape { index })
    } else if r.object_id > 0xFFFF {
        Err(AssignError::IdOutOfRange { index })
    } else if r.cylinder.is_some() {
        let c = Cylinder {
            center_a: r.cylinder.unwrap().center_a,
            center_b: r.cylinder.unwrap().center_b,
            radius: r.cylinder.unwrap().radius,
            object_id: r.object_id as u16,
        };
        if c.wf() {
            Ok(Shape::Cylinder(c))
        } else {
            Err(AssignError::ShapeOutOfRange { index })
        }
    } else {
        let b = OrientedBox {
            inv_instance_matrix: r.oriented_box.unwrap().inv_instance_matrix,
            object_id: r.object_id as u16,
        };
        if !b.inv_instance_matrix.wf() {
            Err(AssignError::ShapeOutOfRange { index })
        } else if b.inv_instance_matrix.det() == 0 {
            Err(AssignError::SingularTransform { object_id: r.object_id as u16 })
        } else {
            Ok(Shape::OrientedBox(b))
        }
    }
}

/// Every record stands for a shape.
pub open spec fn all_convert(records: Seq<InputShape>) -> bool {
    forall|i: int| 0 <= i < records.len() ==> (#[trigger] convert(records[i], i as usize)).is_ok()
}

/// `e` is the refusal of the first record that is refused.
pub open spec fn first_refusal(records: Seq<InputShape>, e: AssignError) -> bool {
    exists|i: int|
        0 <= i < records.len() && #[trigger] convert(records[i], i as usize) == Err::<
            Shape,
            AssignError,
        >(e) && forall|j: int| 0 <= j < i ==> (#[trigger] convert(records[j], j as usize)).is_ok()
}

/// Point `i` of a flat buffer of x, y, z triples, moved by `offset`; a
/// coordinate that the move takes out of range stays at the range's end.
pub open spec fn translated(points: Seq<i64>, offset: Vec3, i: int) -> Vec3 {
    Vec3 {
        x: saturate(points[3 * i] + offset.x),
        y: saturate(points[3 * i + 1] + offset.y),
        z: saturate(points[3 * i + 2] + offset.z),
    }
}

/// Computes `convert`.
pub fn parse_object(r: &InputShape, index: usize) -> (s: Result<Shape, AssignError>)
    ensures
        s == convert(*r, index),
{
    if r.cylinder.is_some() == r.oriented_box.is_some() {
        return Err(AssignError::MalformedShape { index });
    }
    if r.object_id > 0xFFFF {
        return Err(AssignError::IdOutOfRange { index });
    }
    let object_id: u16 = r.object_id as u16;
    match r.cylinder {
        Some(c) => match Cylinder::new(c.center_a, c.center_b, c.radius, object_id) {
            Some(cylinder) => Ok(Shape::Cylinder(cylinder)),
            None => Err(AssignError::ShapeOutOfRange { index }),
        },
        None => match r.oriented_box {
            Some(b) => match OrientedBox::new(b.inv_instance_matrix, object_id) {
                Ok(oriented_box) => Ok(Shape::OrientedBox(oriented_box)),
                Err(BoxError::OutOfRange) => Err(AssignError::ShapeOutOfRange { index }),
                Err(BoxError::Singular) => Err(AssignError::SingularTransform { object_id }),
            },
            None => Err(AssignError::MalformedShape { index }),
        },
    }
}

/// Converts every record, in order, or returns the refusal of the first
/// record that is refused.
pub fn parse_objects(records: &Vec<InputShape>) -> (r: Result<Vec<Shape>, AssignError>)
    ensures
        r.is_ok() <==> all_convert(records@),
        match r {
            Ok(shapes) => {
                &&& shapes@.len() == records@.len()
                &&& forall|i: int| 0 <= i < shapes@.len() ==> (#[trigger] shapes@[i]).wf()
                &&& forall|i: int|
                    0 <= i < records@.len() ==> #[trigger] convert(records@[i], i as usize)
                        == Ok::<Shape, AssignError>(shapes@[i])
            },
            Err(e) => first_refusal(records@, e),
        },
{
    let mut shapes: Vec<Shape> = Vec::new();
    let mut i: usize = 0;
    while i < records.len()
        invariant
            i <= records@.len(),
            shapes@.len() == i,
            forall|j: int| 0 <= j < i ==> (#[trigger] shapes@[j]).wf(),
            forall|j: int|
                0 <= j < i ==> #[trigger] convert(records@[j], j as usize) == Ok::<
                    Shape,
                    AssignError,
                >(shapes@[j]),
        decreases records@.len() - i,
    {
        match parse_object(&records[i], i) {
            Ok(shape) => {
                shapes.push(shape);
            },
            Err(e) => {
                assert(convert(records@[i as int], i as int as usize) == Err::<Shape, AssignError>(e));
                return Err(e);
            },
        }
        i = i + 1;
    }
    Ok(shapes)
}

/// Reads a flat buffer of x, y, z triples and moves every point by
/// `offset`. A buffer whose length is no multiple of three is refused.
pub fn parse_points(points: &Vec<i64>, offset: Vec3) -> (r: Option<Vec<Vec3>>)
    ensures
        r.is_some() <==> points@.len() % 3 == 0,
        r.is_some() ==> r.unwrap()@.len() == points@.len() / 3,
        r.is_some() ==> forall|i: int|
            0 <= i < r.unwrap()@.len() ==> #[trigger] r.unwrap()@[i] == translated(
                points@,
                offset,
                i,
            ),
{
    if points.len() % 3 != 0 {
        return None;
    }
    let n: usize = points.len() / 3;
    let mut out: Vec<Vec3> = Vec::new();
    let mut i: usize = 0;
    while i < n
        invariant
            i <= n,
            n == points@.len() / 3,
            points@.len() % 3 == 0,
            3 * n <= points@.len() <= usize::MAX,
            out@.len() == i,
            forall|j: int| 0 <= j < i ==> #[trigger] out@[j] == translated(points@, offset, j),
        decreases n - i,
    {
        let p = Vec3 {
            x: saturating_sum(points[3 * i], offset.x),
            y: saturating_sum(points[3 * i + 1], offset.y),
            z: saturating_sum(points[3 * i + 2], offset.z),
        };
        out.push(p);
        i = i + 1;
    }
    Some(out)
}

/// The world's box, or nothing when `min` exceeds `max` on some axis.
pub fn to_bounding_box(input: &InputBoundingBox) -> (b: Option<BoundingBox>)
    ensures
        b.is_some() <==> (BoundingBox { min: input.min, max: input.max }).wf(),
        b.is_some() ==> b.unwrap() == (BoundingBox { min: input.min, max: input.max }),
{
    BoundingBox::new(input.min, input.max)
}

} // verus!
