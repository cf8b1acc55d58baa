//! Assigns the points of a 3-D point cloud to the annotation shapes that
//! contain them, on exact fixed-point coordinates.

pub mod bvh;
pub mod linalg;
pub mod parse_inputs;
pub mod shapes;

use crate::bvh::{BoundingVolumeHierarchy, Entry};
use crate::linalg::{BoundingBox, Vec3};
use crate::parse_inputs::{
    all_convert, convert, first_refusal, parse_objects, parse_points, to_bounding_box,
    translated,
};
pub use crate::parse_inputs::{AssignError, InputBoundingBox, InputShape};
use crate::shapes::shape::Shape;
use vstd::prelude::*;

verus! {

/// The shapes with their bounding boxes, in the order of the records.
pub open spec fn entries_of(records: Seq<InputShape>) -> Seq<Entry> {
    Seq::new(
        records.len(),
        |i: int|
            Entry {
                bounds: convert(records[i], i as usize).unwrap().bounding_box(),
                shape: convert(records[i], i as usize).unwrap(),
            },
    )
}

/// The shapes with their bounding boxes, in order.
pub open spec fn boxed(shapes: Seq<Shape>) -> Seq<Entry> {
    Seq::new(shapes.len(), |i: int| Entry { bounds: shapes[i].bounding_box(), shape: shapes[i] })
}

/// Pruning by bounding boxes loses nothing. For any well-formed shapes and
/// any point, the hierarchy over the shapes and their bounding boxes holds
/// exactly those shapes at its leaves, and a query returns the id of the
/// first leaf, from left to right, whose shape contains the point, or
/// `UNASSIGNED` where no shape contains it.
pub proof fn lemma_pruning_is_exact(shapes: Seq<Shape>, p: Vec3)
    requires
        forall|i: int| 0 <= i < shapes.len() ==> (#[trigger] shapes[i]).wf(),
    ensures
        BoundingVolumeHierarchy::over(boxed(shapes)).leaves().to_multiset() == boxed(
            shapes,
        ).to_multiset(),
        BoundingVolumeHierarchy::over(boxed(shapes)).id_at(p)
            == BoundingVolumeHierarchy::first_id(
            BoundingVolumeHierarchy::over(boxed(shapes)).leaves(),
            p,
        ),
{
    let entries = boxed(shapes);
    let h = BoundingVolumeHierarchy::over(entries);
    assert forall|i: int| 0 <= i < entries.len() implies (#[trigger] entries[i]).sound() by {
        let e = entries[i];
        assert forall|q: Vec3| q.in_world() && #[trigger] e.shape.contains(q) implies e.bounds.contains(
            q,
        ) by {
            shapes[i].lemma_bounding_box_sound(q);
        }
    }
    BoundingVolumeHierarchy::lemma_over(entries);
    h.lemma_sound_over(entries);
    h.lemma_query_is_first_match(p);
}

/// Pairs every shape with its bounding box.
pub fn with_boxes(shapes: &Vec<Shape>) -> (entries: Vec<Entry>)
    requires
        forall|i: int| 0 <= i < shapes@.len() ==> (#[trigger] shapes@[i]).wf(),
    ensures
        entries@ == boxed(shapes@),
        forall|i: int| 0 <= i < shapes@.len() ==> (#[trigger] entries@[i]).sound(),
{
    let mut entries: Vec<Entry> = Vec::new();
    let mut i: usize = 0;
    while i < shapes.len()
        invariant
            i <= shapes@.len(),
            entries@.len() == i,
            forall|j: int| 0 <= j < shapes@.len() ==> (#[trigger] shapes@[j]).wf(),
            forall|j: int|
                0 <= j < i ==> #[trigger] entries@[j] == (Entry {
                    bounds: shapes@[j].bounding_box(),
                    shape: shapes@[j],
                }),
            forall|j: int| 0 <= j < i ==> (#[trigger] entries@[j]).sound(),
        decreases shapes@.len() - i,
    {
        entries.push(Entry::new(shapes[i]));
        i = i + 1;
    }
    assert(entries@ =~= boxed(shapes@));
    entries
}

/// Labels every point with the id that the hierarchy finds for it.
pub fn classify(hierarchy: &BoundingVolumeHierarchy, points: &Vec<Vec3>) -> (ids: Vec<u16>)
    requires
        hierarchy.wf(),
    ensures
        ids@.len() == points@.len(),
        forall|i: int| 0 <= i < points@.len() ==> #[trigger] ids@[i] == hierarchy.id_at(points@[i]),
{
    let mut ids: Vec<u16> = Vec::new();
    let mut i: usize = 0;
    while i < points.len()
        invariant
            i <= points@.len(),
            hierarchy.wf(),
            ids@.len() == i,
            forall|j: int| 0 <= j < i ==> #[trigger] ids@[j] == hierarchy.id_at(points@[j]),
        decreases points@.len() - i,
    {
        ids.push(hierarchy.get_object_id(&points[i]));
        i = i + 1;
    }
    ids
}

/// Labels every point of a flat buffer of x, y, z triples, moved by the
/// offset, with the id of a shape that contains it, or with `UNASSIGNED`.
///
/// The inputs are checked first, in this order: the buffer's length, the
/// world's box, then the records one by one. Where all pass, label `i` is
/// what the hierarchy over the shapes answers for point `i`: the id of the
/// first shape that contains the point, in the order of the hierarchy's
/// leaves.
pub fn assign_points(
    input_shapes: Vec<InputShape>,
    points: Vec<i64>,
    input_bounding_box: InputBoundingBox,
    input_point_offset: Vec3,
) -> (r: Result<Vec<u16>, AssignError>)
    ensures
        r.is_ok() <==> points@.len() % 3 == 0 && (BoundingBox {
            min: input_bounding_box.min,
            max: input_bounding_box.max,
        }).wf() && all_convert(input_shapes@),
        points@.len() % 3 != 0 ==> r == Err::<Vec<u16>, AssignError>(AssignError::MalformedPoints),
        points@.len() % 3 == 0 && !(BoundingBox {
            min: input_bounding_box.min,
            max: input_bounding_box.max,
        }).wf() ==> r == Err::<Vec<u16>, AssignError>(AssignError::MalformedBoundingBox),
        points@.len() % 3 == 0 && (BoundingBox {
            min: input_bounding_box.min,
            max: input_bounding_box.max,
        }).wf() ==> match r {
            Err(e) => first_refusal(input_shapes@, e),
            Ok(ids) => {
                &&& all_convert(input_shapes@)
                &&& ids@.len() == points@.len() / 3
                &&& BoundingVolumeHierarchy::over(entries_of(input_shapes@)).leaves().to_multiset()
                    == entries_of(input_shapes@).to_multiset()
                &&& forall|i: int|
                    0 <= i < ids@.len() ==> #[trigger] ids@[i] == BoundingVolumeHierarchy::over(
                        entries_of(input_shapes@),
                    ).id_at(translated(points@, input_point_offset, i))
                &&& forall|i: int|
                    0 <= i < ids@.len() ==> #[trigger] ids@[i]
                        == BoundingVolumeHierarchy::first_id(
                        BoundingVolumeHierarchy::over(entries_of(input_shapes@)).leaves(),
                        translated(points@, input_point_offset, i),
                    )
            },
        },
{
    let point_vec = match parse_points(&points, input_point_offset) {
        Some(v) => v,
        None => {
            return Err(AssignError::MalformedPoints);
        },
    };
    if to_bounding_box(&input_bounding_box).is_none() {
        return Err(AssignError::MalformedBoundingBox);
    }
    let shape_vec = match parse_objects(&input_shapes) {
        Ok(v) => v,
        Err(e) => {
            return Err(e);
        },
    };
    let shapes_with_boxes = with_boxes(&shape_vec);
    let ghost entries = shapes_with_boxes@;
    assert(entries =~= entries_of(input_shapes@));
    let hierarchy = BoundingVolumeHierarchy::new(shapes_with_boxes);
    let ids = classify(&hierarchy, &point_vec);
    proof {
        let order = hierarchy.leaves();
        hierarchy.lemma_sound_over(entries);
        assert forall|i: int| 0 <= i < ids@.len() implies #[trigger] ids@[i]
            == BoundingVolumeHierarchy::first_id(
            order,
            translated(points@, input_point_offset, i),
        ) by {
            hierarchy.lemma_query_is_first_match(point_vec@[i]);
        }
    }
    Ok(ids)
}

} // verus!
