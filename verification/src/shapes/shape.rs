//! The closed set of shape kinds behind one interface.

use crate::linalg::{BoundingBox, Vec3};
use crate::shapes::cylinder::Cylinder;
use crate::shapes::oriented_box::OrientedBox;
use vstd::prelude::*;

verus! {

/// An annotation shape of one of the two kinds.
#[derive(Clone, Copy, Debug, PartialEq, Eq, Structural)]
pub enum Shape {
    Cylinder(Cylinder),
    OrientedBox(OrientedBox),
}

impl Shape {
    /// The shape of either kind is well formed.
    pub open spec fn wf(self) -> bool {
        match self {
            Shape::Cylinder(c) => c.wf(),
            Shape::OrientedBox(b) => b.wf(),
        }
    }

    /// Exact containment of a point, by kind.
    pub open spec fn contains(self, p: Vec3) -> bool {
        match self {
            Shape::Cylinder(c) => c.contains(p),
            Shape::OrientedBox(b) => b.contains(p),
        }
    }

    /// The box that bounds the shape, by kind.
    pub open spec fn bounding_box(self) -> BoundingBox {
        match self {
            Shape::Cylinder(c) => c.bounding_box(),
            Shape::OrientedBox(b) => b.bounding_box(),
        }
    }

    /// The id of the object that the shape annotates.
    pub open spec fn object_id(self) -> u16 {
        match self {
            Shape::Cylinder(c) => c.object_id,
            Shape::OrientedBox(b) => b.object_id,
        }
    }

    /// Decides `contains` for a point of the world.
    pub fn contains_point(&self, p: &Vec3) -> (r: bool)
        requires
            self.wf(),
            p.in_world(),
        ensures
            r == self.contains(*p),
    {
        match self {
            Shape::Cylinder(c) => c.contains_point(p),
            Shape::OrientedBox(b) => b.contains_point(p),
        }
    }

    /// Computes `bounding_box`.
    pub fn create_bounding_box(&self) -> (b: BoundingBox)
        requires
            self.wf(),
        ensures
            b == self.bounding_box(),
    {
        match self {
            Shape::Cylinder(c) => c.create_bounding_box(),
            Shape::OrientedBox(b) => b.create_bounding_box(),
        }
    }

    /// Reads `object_id`.
    pub fn get_object_id(&self) -> (id: u16)
        ensures
            id == self.object_id(),
    {
        match self {
            Shape::Cylinder(c) => c.get_object_id(),
            Shape::OrientedBox(b) => b.get_object_id(),
        }
    }

    /// The bounding box is conservative: it contains every point of the
    /// world that the shape contains.
    pub proof fn lemma_bounding_box_sound(self, p: Vec3)
        requires
            self.wf(),
            p.in_world(),
            self.contains(p),
        ensures
            self.bounding_box().contains(p),
    {
        match self {
            Shape::Cylinder(c) => c.lemma_bounding_box_sound(p),
            Shape::OrientedBox(b) => b.lemma_bounding_box_sound(p),
        }
    }
}

} // verus!
