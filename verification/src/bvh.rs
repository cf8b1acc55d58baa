//! The bounding volume hierarchy: a binary tree over shapes and their boxes
//! that answers which shape contains a point.

use crate::linalg::{BoundingBox, Vec3};
use crate::shapes::shape::Shape;
use vstd::prelude::*;
use vstd::seq_lib::{lemma_multiset_commutative, to_multiset_insert};

verus! {

/// The id given to a point that no shape contains.
pub const UNASSIGNED: u16 = 0;

/// A shape with the box that bounds it.
#[derive(Clone, Copy, Debug, PartialEq, Eq, Structural)]
pub struct Entry {
    pub bounds: BoundingBox,
    pub shape: Shape,
}

/// A node of the hierarchy.
#[derive(Debug)]
pub enum Node {
    Leaf { entry: Entry },
    Internal { bounds: BoundingBox, left: Box<Node>, right: Box<Node> },
}

/// The hierarchy: no node at all over no shapes, else a tree.
#[derive(Debug)]
pub struct BoundingVolumeHierarchy {
    pub root: Option<Node>,
}

/// Twice the centroid of an entry's box along axis `k`.
pub open spec fn centroid_key(e: Entry, k: int) -> int {
    e.bounds.min.axis(k) + e.bounds.max.axis(k)
}

/// The entries stand in ascending order of their centroids along axis `k`.
pub open spec fn sorted_on(s: Seq<Entry>, k: int) -> bool {
    forall|a: int, b: int|
        0 <= a < b < s.len() ==> centroid_key(#[trigger] s[a], k) <= centroid_key(
            #[trigger] s[b],
            k,
        )
}

/// No entry of `l` has its centroid beyond that of an entry of `r` along
/// axis `k`.
pub open spec fn split_on(l: Seq<Entry>, r: Seq<Entry>, k: int) -> bool {
    forall|a: int, b: int|
        0 <= a < l.len() && 0 <= b < r.len() ==> centroid_key(#[trigger] l[a], k)
            <= centroid_key(#[trigger] r[b], k)
}

/// The axis along which the box is widest; the earlier axis wins a tie.
pub open spec fn widest_axis(b: BoundingBox) -> int {
    let ex = b.max.x - b.min.x;
    let ey = b.max.y - b.min.y;
    let ez = b.max.z - b.min.z;
    if ex >= ey && ex >= ez {
        0
    } else if ey >= ez {
        1
    } else {
        2
    }
}

/// The union of the boxes of one or more entries.
pub open spec fn enclosure(s: Seq<Entry>) -> BoundingBox
    decreases s.len(),
{
    if s.len() <= 1 {
        s[0].bounds
    } else {
        enclosure(s.drop_last()).hull(s.last().bounds)
    }
}

/// Where an entry with centroid `key` goes among entries in ascending order
/// along axis `k`: behind every entry whose centroid is not greater.
pub open spec fn insertion_point(s: Seq<Entry>, k: int, key: int) -> int
    decreases s.len(),
{
    if s.len() == 0 || centroid_key(s[0], k) > key {
        0
    } else {
        1 + insertion_point(s.subrange(1, s.len() as int), k, key)
    }
}

/// The entries in ascending order of their centroids along axis `k`, those
/// with equal centroids in their given order.
pub open spec fn stable_sort(s: Seq<Entry>, k: int) -> Seq<Entry>
    decreases s.len(),
{
    if s.len() == 0 {
        Seq::empty()
    } else {
        let sorted = stable_sort(s.drop_last(), k);
        sorted.insert(insertion_point(sorted, k, centroid_key(s.last(), k)), s.last())
    }
}

/// The tree over one or more entries. A single entry is a leaf. Otherwise
/// the entries are sorted by centroid along the widest axis of the union of
/// their boxes and split at the median; each half gives a child, and the
/// node's box is the union of the children's boxes.
pub open spec fn tree_of(entries: Seq<Entry>) -> Node
    decreases entries.len(),
    via tree_of_decreases
{
    if entries.len() <= 1 {
        Node::Leaf { entry: entries[0] }
    } else {
        let sorted = stable_sort(entries, widest_axis(enclosure(entries)));
        let mid = entries.len() as int / 2;
        let left = tree_of(sorted.subrange(0, mid));
        let right = tree_of(sorted.subrange(mid, entries.len() as int));
        Node::Internal {
            bounds: left.bounds().hull(right.bounds()),
            left: Box::new(left),
            right: Box::new(right),
        }
    }
}

#[via_fn]
proof fn tree_of_decreases(entries: Seq<Entry>) {
    if entries.len() > 1 {
        lemma_stable_sort(entries, widest_axis(enclosure(entries)));
    }
}

/// The insertion point is the first position whose entry has a greater
/// centroid, where no earlier entry has one.
pub proof fn lemma_insertion_point_is(s: Seq<Entry>, k: int, key: int, j: int)
    requires
        0 <= j <= s.len(),
        forall|a: int| 0 <= a < j ==> centroid_key(#[trigger] s[a], k) <= key,
        j < s.len() ==> centroid_key(s[j], k) > key,
    ensures
        insertion_point(s, k, key) == j,
    decreases s.len(),
{
    if j > 0 {
        let rest = s.subrange(1, s.len() as int);
        assert(centroid_key(s[0], k) <= key);
        assert forall|a: int| 0 <= a < j - 1 implies centroid_key(#[trigger] rest[a], k)
            <= key by {
            assert(rest[a] == s[a + 1]);
        }
        if j < s.len() {
            assert(rest[j - 1] == s[j]);
        }
        lemma_insertion_point_is(rest, k, key, j - 1);
    }
}

/// Every entry before the insertion point has a centroid that is not
/// greater, and the entry at it, if there is one, a greater one.
pub proof fn lemma_insertion_point_splits(s: Seq<Entry>, k: int, key: int)
    ensures
        0 <= insertion_point(s, k, key) <= s.len(),
        forall|a: int|
            0 <= a < insertion_point(s, k, key) ==> centroid_key(#[trigger] s[a], k) <= key,
        insertion_point(s, k, key) < s.len() ==> centroid_key(s[insertion_point(s, k, key)], k)
            > key,
    decreases s.len(),
{
    if !(s.len() == 0 || centroid_key(s[0], k) > key) {
        let rest = s.subrange(1, s.len() as int);
        let j = insertion_point(rest, k, key);
        lemma_insertion_point_splits(rest, k, key);
        assert forall|a: int| 0 <= a < j + 1 implies centroid_key(#[trigger] s[a], k) <= key by {
            if a > 0 {
                assert(rest[a - 1] == s[a]);
            }
        }
        if j < rest.len() {
            assert(rest[j] == s[j + 1]);
        }
    }
}

/// Sorting gives the same entries, in ascending order.
pub proof fn lemma_stable_sort(s: Seq<Entry>, k: int)
    ensures
        stable_sort(s, k).len() == s.len(),
        stable_sort(s, k).to_multiset() == s.to_multiset(),
        sorted_on(stable_sort(s, k), k),
    decreases s.len(),
{
    if s.len() > 0 {
        let prefix = s.drop_last();
        let e = s.last();
        let key = centroid_key(e, k);
        let before = stable_sort(prefix, k);
        let j = insertion_point(before, k, key);
        let after = before.insert(j, e);
        lemma_stable_sort(prefix, k);
        lemma_insertion_point_splits(before, k, key);
        to_multiset_insert(before, j, e);
        assert(s =~= prefix.push(e));
        prefix.to_multiset_ensures();
        assert forall|a: int, b: int| 0 <= a < b < after.len() implies centroid_key(
            #[trigger] after[a],
            k,
        ) <= centroid_key(#[trigger] after[b], k) by {
            if a < j && b > j {
                assert(after[b] == before[b - 1]);
            } else if a == j {
                assert(after[b] == before[b - 1]);
                if b - 1 > j {
                    assert(centroid_key(before[j], k) <= centroid_key(before[b - 1], k));
                }
            } else if a > j {
                assert(after[a] == before[a - 1]);
                assert(after[b] == before[b - 1]);
            }
        }
    } else {
        assert(stable_sort(s, k) =~= s);
    }
}

/// The id of the first entry, in order, whose shape contains the point.
pub open spec fn first_match(s: Seq<Entry>, p: Vec3) -> Option<u16>
    decreases s.len(),
{
    if s.len() == 0 {
        None
    } else if s[0].shape.contains(p) {
        Some(s[0].shape.object_id())
    } else {
        first_match(s.subrange(1, s.len() as int), p)
    }
}

/// Two to the power `n`.
pub open spec fn pow2(n: nat) -> nat
    decreases n,
{
    if n == 0 {
        1
    } else {
        2 * pow2((n - 1) as nat)
    }
}

/// Every shape is well formed.
pub open spec fn all_wf(s: Seq<Entry>) -> bool {
    forall|i: int| 0 <= i < s.len() ==> (#[trigger] s[i]).shape.wf()
}

impl Entry {
    /// The box contains every point of the world that the shape contains.
    pub open spec fn sound(self) -> bool {
        forall|p: Vec3|
            p.in_world() && #[trigger] self.shape.contains(p) ==> self.bounds.contains(p)
    }

    /// Pairs a shape with its bounding box.
    pub fn new(shape: Shape) -> (e: Entry)
        requires
            shape.wf(),
        ensures
            e == (Entry { bounds: shape.bounding_box(), shape }),
            e.sound(),
    {
        proof {
            assert forall|p: Vec3| p.in_world() && #[trigger] shape.contains(p) implies shape.bounding_box().contains(
                p,
            ) by {
                shape.lemma_bounding_box_sound(p);
            }
        }
        Entry { bounds: shape.create_bounding_box(), shape }
    }

    /// Computes `centroid_key`.
    pub fn key(&self, k: u8) -> (r: i128)
        ensures
            r == centroid_key(*self, k as int),
    {
        self.bounds.min.get(k) as i128 + self.bounds.max.get(k) as i128
    }
}

/// Computes `widest_axis`.
pub fn widest_axis_of(b: &BoundingBox) -> (k: u8)
    ensures
        k == widest_axis(*b),
        k < 3,
{
    let ex: i128 = b.max.x as i128 - b.min.x as i128;
    let ey: i128 = b.max.y as i128 - b.min.y as i128;
    let ez: i128 = b.max.z as i128 - b.min.z as i128;
    if ex >= ey && ex >= ez {
        0
    } else if ey >= ez {
        1
    } else {
        2
    }
}

/// Computes `enclosure`.
pub fn enclosure_of(entries: &Vec<Entry>) -> (b: BoundingBox)
    requires
        entries@.len() >= 1,
    ensures
        b == enclosure(entries@),
{
    let mut total = entries[0].bounds;
    let mut i: usize = 1;
    assert(entries@.subrange(0, 1)[0] == entries@[0]);
    while i < entries.len()
        invariant
            1 <= i <= entries@.len(),
            total == enclosure(entries@.subrange(0, i as int)),
        decreases entries@.len() - i,
    {
        proof {
            let s = entries@.subrange(0, i + 1);
            assert(s.drop_last() =~= entries@.subrange(0, i as int));
            assert(s.last() == entries@[i as int]);
        }
        total = total.union(&entries[i].bounds);
        i = i + 1;
    }
    assert(entries@.subrange(0, i as int) =~= entries@);
    total
}

/// The entries in ascending order of their centroids along axis `k`;
/// entries with equal centroids keep their order.
pub fn sort_by_centroid(entries: &Vec<Entry>, k: u8) -> (out: Vec<Entry>)
    ensures
        out@ == stable_sort(entries@, k as int),
        out@.to_multiset() == entries@.to_multiset(),
        out@.len() == entries@.len(),
        sorted_on(out@, k as int),
{
    let mut out: Vec<Entry> = Vec::new();
    let mut i: usize = 0;
    assert(entries@.subrange(0, 0) =~= out@);
    while i < entries.len()
        invariant
            i <= entries@.len(),
            out@.len() == i,
            out@ == stable_sort(entries@.subrange(0, i as int), k as int),
        decreases entries@.len() - i,
    {
        let e = entries[i];
        let key = e.key(k);
        let mut j: usize = 0;
        while j < out.len() && out[j].key(k) <= key
            invariant
                j <= out@.len(),
                key == centroid_key(e, k as int),
                forall|a: int| 0 <= a < j ==> centroid_key(#[trigger] out@[a], k as int) <= key,
            decreases out@.len() - j,
        {
            j = j + 1;
        }
        proof {
            lemma_insertion_point_is(out@, k as int, key as int, j as int);
            assert(entries@.subrange(0, i + 1).drop_last() =~= entries@.subrange(0, i as int));
        }
        out.insert(j, e);
        i = i + 1;
    }
    proof {
        assert(entries@.subrange(0, i as int) =~= entries@);
        lemma_stable_sort(entries@, k as int);
    }
    out
}

impl Node {
    /// The box of the node.
    pub open spec fn bounds(self) -> BoundingBox {
        match self {
            Node::Leaf { entry } => entry.bounds,
            Node::Internal { bounds, .. } => bounds,
        }
    }

    /// The entries at the leaves, from left to right.
    pub open spec fn leaves(self) -> Seq<Entry>
        decreases self,
    {
        match self {
            Node::Leaf { entry } => seq![entry],
            Node::Internal { left, right, .. } => left.leaves() + right.leaves(),
        }
    }

    /// Every shape is well formed, and the box of every internal node is the
    /// union of its children's boxes.
    pub open spec fn wf(self) -> bool
        decreases self,
    {
        match self {
            Node::Leaf { entry } => entry.shape.wf(),
            Node::Internal { bounds, left, right } => {
                &&& left.wf()
                &&& right.wf()
                &&& bounds == left.bounds().hull(right.bounds())
            },
        }
    }

    /// The box at every leaf is sound for its shape.
    pub open spec fn sound(self) -> bool {
        forall|i: int| 0 <= i < self.leaves().len() ==> (#[trigger] self.leaves()[i]).sound()
    }

    /// Every internal node has half of its leaves, rounded down, on the left.
    pub open spec fn balanced(self) -> bool
        decreases self,
    {
        match self {
            Node::Leaf { .. } => true,
            Node::Internal { left, right, .. } => {
                &&& left.balanced()
                &&& right.balanced()
                &&& left.leaves().len() == (left.leaves().len() + right.leaves().len()) / 2
            },
        }
    }

    /// At every internal node, along the widest axis of its box, no centroid
    /// on the left lies beyond a centroid on the right.
    pub open spec fn ordered(self) -> bool
        decreases self,
    {
        match self {
            Node::Leaf { .. } => true,
            Node::Internal { bounds, left, right } => {
                &&& left.ordered()
                &&& right.ordered()
                &&& split_on(left.leaves(), right.leaves(), widest_axis(bounds))
            },
        }
    }

    /// The number of steps from the node down to its deepest leaf.
    pub open spec fn height(self) -> nat
        decreases self,
    {
        match self {
            Node::Leaf { .. } => 0,
            Node::Internal { left, right, .. } => 1 + if left.height() >= right.height() {
                left.height()
            } else {
                right.height()
            },
        }
    }

    /// What a query returns. A leaf answers for its shape. An internal node
    /// whose box lacks the point answers nothing; otherwise the left child
    /// answers, and the right child only where the left has no answer.
    pub open spec fn lookup(self, p: Vec3) -> Option<u16>
        decreases self,
    {
        match self {
            Node::Leaf { entry } => if entry.shape.contains(p) {
                Some(entry.shape.object_id())
            } else {
                None
            },
            Node::Internal { bounds, left, right } => if !bounds.contains(p) {
                None
            } else if left.lookup(p).is_some() {
                left.lookup(p)
            } else {
                right.lookup(p)
            },
        }
    }

    /// Reads `bounds`.
    pub fn bounding_box(&self) -> (b: BoundingBox)
        ensures
            b == self.bounds(),
    {
        match self {
            Node::Leaf { entry } => entry.bounds,
            Node::Internal { bounds, .. } => *bounds,
        }
    }

    /// Computes `lookup` for a point of the world.
    pub fn find(&self, p: &Vec3) -> (r: Option<u16>)
        requires
            self.wf(),
            p.in_world(),
        ensures
            r == self.lookup(*p),
        decreases self,
    {
        match self {
            Node::Leaf { entry } => {
                if entry.shape.contains_point(p) {
                    Some(entry.shape.get_object_id())
                } else {
                    None
                }
            },
            Node::Internal { bounds, left, right } => {
                if !bounds.contains_point(p) {
                    None
                } else {
                    let l = left.find(p);
                    if l.is_some() {
                        l
                    } else {
                        right.find(p)
                    }
                }
            },
        }
    }
}

/// Sequences with the same entries, however ordered, have the same length
/// and each holds every entry of the other.
pub proof fn lemma_same_members(a: Seq<Entry>, b: Seq<Entry>)
    requires
        a.to_multiset() == b.to_multiset(),
    ensures
        a.len() == b.len(),
        forall|i: int| 0 <= i < a.len() ==> b.contains(#[trigger] a[i]),
{
    a.to_multiset_ensures();
    b.to_multiset_ensures();
    assert forall|i: int| 0 <= i < a.len() implies b.contains(#[trigger] a[i]) by {
        assert(a.contains(a[i]));
        assert(a.to_multiset().count(a[i]) > 0);
        assert(b.to_multiset().count(a[i]) > 0);
    }
}

/// The union over a concatenation is the union of the two parts' unions.
pub proof fn lemma_enclosure_concat(a: Seq<Entry>, b: Seq<Entry>)
    requires
        a.len() >= 1,
        b.len() >= 1,
    ensures
        enclosure(a + b) == enclosure(a).hull(enclosure(b)),
    decreases b.len(),
{
    if b.len() == 1 {
        assert((a + b).drop_last() =~= a);
    } else {
        assert((a + b).drop_last() =~= a + b.drop_last());
        lemma_enclosure_concat(a, b.drop_last());
        BoundingBox::lemma_hull_associative(
            enclosure(a),
            enclosure(b.drop_last()),
            b.last().bounds,
        );
    }
}

/// The union over two or more entries is the union over the others
/// together with the box of any one of them.
pub proof fn lemma_enclosure_without(s: Seq<Entry>, j: int)
    requires
        s.len() >= 2,
        0 <= j < s.len(),
    ensures
        enclosure(s) == enclosure(s.remove(j)).hull(s[j].bounds),
{
    let one = seq![s[j]];
    let before = s.subrange(0, j);
    let after = s.subrange(j + 1, s.len() as int);
    assert(enclosure(one) == s[j].bounds);
    if j == 0 {
        assert(s =~= one + after);
        assert(s.remove(j) =~= after);
        lemma_enclosure_concat(one, after);
        BoundingBox::lemma_hull_commutative(enclosure(one), enclosure(after));
    } else if j == s.len() - 1 {
        assert(s =~= before + one);
        assert(s.remove(j) =~= before);
        lemma_enclosure_concat(before, one);
    } else {
        assert(s =~= (before + one) + after);
        assert(s.remove(j) =~= before + after);
        lemma_enclosure_concat(before, one);
        lemma_enclosure_concat(before + one, after);
        lemma_enclosure_concat(before, after);
        BoundingBox::lemma_hull_associative(enclosure(before), enclosure(one), enclosure(after));
        BoundingBox::lemma_hull_commutative(enclosure(one), enclosure(after));
        BoundingBox::lemma_hull_associative(enclosure(before), enclosure(after), enclosure(one));
    }
}

/// The union does not depend on the order of the entries.
pub proof fn lemma_enclosure_of_same_members(a: Seq<Entry>, b: Seq<Entry>)
    requires
        a.len() >= 1,
        a.to_multiset() == b.to_multiset(),
    ensures
        enclosure(a) == enclosure(b),
    decreases a.len(),
{
    lemma_same_members(a, b);
    let x = a.last();
    let j = choose|j: int| 0 <= j < b.len() && b[j] == x;
    if a.len() == 1 {
    } else {
        let rest = a.drop_last();
        assert(a =~= rest.push(x));
        rest.to_multiset_ensures();
        b.to_multiset_ensures();
        assert(rest.to_multiset() =~= a.to_multiset().remove(x));
        assert(b.remove(j).to_multiset() =~= rest.to_multiset());
        lemma_enclosure_of_same_members(rest, b.remove(j));
        lemma_enclosure_without(b, j);
    }
}

/// A query over a concatenation answers from the first part where that has
/// an answer, else from the second.
pub proof fn lemma_first_match_concat(a: Seq<Entry>, b: Seq<Entry>, p: Vec3)
    ensures
        first_match(a + b, p) == if first_match(a, p).is_some() {
            first_match(a, p)
        } else {
            first_match(b, p)
        },
    decreases a.len(),
{
    if a.len() == 0 {
        assert(a + b =~= b);
    } else {
        let rest = a.subrange(1, a.len() as int);
        assert((a + b)[0] == a[0]);
        assert((a + b).subrange(1, (a + b).len() as int) =~= rest + b);
        lemma_first_match_concat(rest, b, p);
    }
}

/// An answer of `first_match` is the id of an entry whose shape contains
/// the point, and no earlier entry's shape contains it.
pub proof fn lemma_first_match_some(s: Seq<Entry>, p: Vec3) -> (i: int)
    requires
        first_match(s, p).is_some(),
    ensures
        0 <= i < s.len(),
        s[i].shape.contains(p),
        first_match(s, p) == Some(s[i].shape.object_id()),
        forall|j: int| 0 <= j < i ==> !(#[trigger] s[j]).shape.contains(p),
    decreases s.len(),
{
    if s[0].shape.contains(p) {
        0
    } else {
        let rest = s.subrange(1, s.len() as int);
        let k = lemma_first_match_some(rest, p);
        assert(rest[k] == s[k + 1]);
        assert forall|j: int| 0 <= j < k + 1 implies !(#[trigger] s[j]).shape.contains(p) by {
            if j > 0 {
                assert(rest[j - 1] == s[j]);
            }
        }
        k + 1
    }
}

/// `first_match` has no answer exactly when no entry's shape contains the
/// point.
pub proof fn lemma_first_match_none(s: Seq<Entry>, p: Vec3)
    ensures
        first_match(s, p).is_none() <==> forall|i: int|
            0 <= i < s.len() ==> !(#[trigger] s[i]).shape.contains(p),
    decreases s.len(),
{
    if s.len() > 0 {
        let rest = s.subrange(1, s.len() as int);
        lemma_first_match_none(rest, p);
        if first_match(s, p).is_none() {
            assert forall|i: int| 0 <= i < s.len() implies !(#[trigger] s[i]).shape.contains(
                p,
            ) by {
                if i > 0 {
                    assert(rest[i - 1] == s[i]);
                }
            }
        } else if !s[0].shape.contains(p) {
            let k = lemma_first_match_some(rest, p);
            assert(rest[k] == s[k + 1]);
        }
    }
}

/// Both halves of a reordering of well-formed entries are well formed.
pub proof fn lemma_halves_wf(entries: Seq<Entry>, sorted: Seq<Entry>, mid: int)
    requires
        all_wf(entries),
        sorted.to_multiset() == entries.to_multiset(),
        0 <= mid <= sorted.len(),
    ensures
        all_wf(sorted.subrange(0, mid)),
        all_wf(sorted.subrange(mid, sorted.len() as int)),
{
    lemma_same_members(sorted, entries);
    let lower = sorted.subrange(0, mid);
    let upper = sorted.subrange(mid, sorted.len() as int);
    assert forall|i: int| 0 <= i < lower.len() implies (#[trigger] lower[i]).shape.wf() by {
        let w = choose|w: int| 0 <= w < entries.len() && entries[w] == sorted[i];
    }
    assert forall|i: int| 0 <= i < upper.len() implies (#[trigger] upper[i]).shape.wf() by {
        let w = choose|w: int| 0 <= w < entries.len() && entries[w] == sorted[mid + i];
    }
}

/// What the tree over one or more entries is like: its leaves are the
/// entries, in some order; its box is the union of their boxes; it is
/// balanced and ordered; and it is well formed where the shapes are.
pub proof fn lemma_tree_of(entries: Seq<Entry>)
    requires
        entries.len() >= 1,
    ensures
        tree_of(entries).leaves().to_multiset() == entries.to_multiset(),
        tree_of(entries).leaves().len() == entries.len(),
        tree_of(entries).bounds() == enclosure(entries),
        tree_of(entries).balanced(),
        tree_of(entries).ordered(),
        all_wf(entries) ==> tree_of(entries).wf(),
    decreases entries.len(),
{
    let t = tree_of(entries);
    if entries.len() == 1 {
        assert(t.leaves() =~= entries);
    } else {
        let axis = widest_axis(enclosure(entries));
        let sorted = stable_sort(entries, axis);
        let mid = entries.len() as int / 2;
        let lower = sorted.subrange(0, mid);
        let upper = sorted.subrange(mid, entries.len() as int);
        let left = tree_of(lower);
        let right = tree_of(upper);
        lemma_stable_sort(entries, axis);
        lemma_tree_of(lower);
        lemma_tree_of(upper);
        if all_wf(entries) {
            lemma_halves_wf(entries, sorted, mid);
        }
        assert(sorted =~= lower + upper);
        lemma_multiset_commutative(lower, upper);
        lemma_multiset_commutative(left.leaves(), right.leaves());
        lemma_same_members(left.leaves(), lower);
        lemma_same_members(right.leaves(), upper);
        assert forall|a: int, b: int|
            0 <= a < left.leaves().len() && 0 <= b < right.leaves().len() implies centroid_key(
            #[trigger] left.leaves()[a],
            axis,
        ) <= centroid_key(#[trigger] right.leaves()[b], axis) by {
            let x = choose|x: int| 0 <= x < lower.len() && lower[x] == left.leaves()[a];
            let y = choose|y: int| 0 <= y < upper.len() && upper[y] == right.leaves()[b];
            assert(lower[x] == sorted[x]);
            assert(upper[y] == sorted[mid + y]);
        }
        assert(split_on(left.leaves(), right.leaves(), axis));
        lemma_enclosure_concat(lower, upper);
        lemma_enclosure_of_same_members(sorted, entries);
        assert(t.leaves() == left.leaves() + right.leaves());
        assert(t.bounds() == left.bounds().hull(right.bounds()));
    }
}

impl Node {
    /// Builds the tree over one or more entries. A single entry becomes a
    /// leaf. Otherwise the entries are ordered by centroid along the widest
    /// axis of the union of their boxes and split at the median; each half
    /// becomes a child, and the node's box is the union of the children's.
    pub fn build(entries: Vec<Entry>) -> (t: Node)
        requires
            entries@.len() >= 1,
            all_wf(entries@),
        ensures
            t == tree_of(entries@),
            t.wf(),
            t.leaves().to_multiset() == entries@.to_multiset(),
            t.leaves().len() == entries@.len(),
            t.bounds() == enclosure(entries@),
            t.balanced(),
            t.ordered(),
        decreases entries@.len(),
    {
        if entries.len() == 1 {
            let t = Node::Leaf { entry: entries[0] };
            proof {
                assert(t.leaves() =~= entries@);
            }
            t
        } else {
            let total = enclosure_of(&entries);
            let axis = widest_axis_of(&total);
            let mut lower = sort_by_centroid(&entries, axis);
            let ghost sorted = lower@;
            let mid = lower.len() / 2;
            let upper = lower.split_off(mid);
            proof {
                lemma_halves_wf(entries@, sorted, mid as int);
                lemma_tree_of(entries@);
            }
            let left = Node::build(lower);
            let right = Node::build(upper);
            let bounds = left.bounding_box().union(&right.bounding_box());
            Node::Internal { bounds, left: Box::new(left), right: Box::new(right) }
        }
    }

    /// A balanced tree is shallow: one of height `h >= 1` has more than
    /// `2^(h - 1)` leaves, so its height is at most the logarithm of their
    /// number, rounded up.
    pub proof fn lemma_balanced_is_shallow(self)
        requires
            self.balanced(),
        ensures
            self.leaves().len() >= 1,
            self.height() >= 1 ==> pow2((self.height() - 1) as nat) < self.leaves().len(),
        decreases self,
    {
        match self {
            Node::Leaf { .. } => {},
            Node::Internal { bounds, left, right } => {
                left.lemma_balanced_is_shallow();
                right.lemma_balanced_is_shallow();
                let n = self.leaves().len();
                assert(n == left.leaves().len() + right.leaves().len());
                assert(pow2(left.height()) < n) by {
                    if left.height() >= 1 {
                        assert(pow2(left.height()) == 2 * pow2((left.height() - 1) as nat));
                    }
                }
                assert(pow2(right.height()) < n) by {
                    if right.height() >= 1 {
                        assert(pow2(right.height()) == 2 * pow2((right.height() - 1) as nat));
                    }
                }
            },
        }
    }

    /// The box of a sound tree contains every point of the world for which
    /// its leaves have an answer.
    pub proof fn lemma_match_within_bounds(self, p: Vec3)
        requires
            self.wf(),
            self.sound(),
            p.in_world(),
            first_match(self.leaves(), p).is_some(),
        ensures
            self.bounds().contains(p),
        decreases self,
    {
        match self {
            Node::Leaf { entry } => {
                assert(self.leaves()[0] == entry);
                let i = lemma_first_match_some(self.leaves(), p);
            },
            Node::Internal { bounds, left, right } => {
                self.lemma_children_sound();
                lemma_first_match_concat(left.leaves(), right.leaves(), p);
                if first_match(left.leaves(), p).is_some() {
                    left.lemma_match_within_bounds(p);
                } else {
                    right.lemma_match_within_bounds(p);
                }
            },
        }
    }

    /// The children of a sound internal node are sound.
    pub proof fn lemma_children_sound(self)
        requires
            self.sound(),
        ensures
            match self {
                Node::Leaf { .. } => true,
                Node::Internal { left, right, .. } => left.sound() && right.sound(),
            },
    {
        match self {
            Node::Leaf { .. } => {},
            Node::Internal { bounds, left, right } => {
                let l = left.leaves();
                let r = right.leaves();
                assert(self.leaves() == l + r);
                assert forall|i: int| 0 <= i < l.len() implies (#[trigger] l[i]).sound() by {
                    assert((l + r)[i] == l[i]);
                }
                assert forall|i: int| 0 <= i < r.len() implies (#[trigger] r[i]).sound() by {
                    assert((l + r)[l.len() + i] == r[i]);
                }
            },
        }
    }

    /// Pruning loses nothing: on a tree whose boxes are sound, a query
    /// returns the id of the first leaf, from left to right, whose shape
    /// contains the point, and nothing where there is none.
    pub proof fn lemma_lookup_is_first_match(self, p: Vec3)
        requires
            self.wf(),
            self.sound(),
            p.in_world(),
        ensures
            self.lookup(p) == first_match(self.leaves(), p),
        decreases self,
    {
        match self {
            Node::Leaf { entry } => {
                let s = self.leaves();
                assert(s[0] == entry);
                assert(s.subrange(1, s.len() as int).len() == 0);
                assert(first_match(s.subrange(1, s.len() as int), p).is_none());
            },
            Node::Internal { bounds, left, right } => {
                self.lemma_children_sound();
                lemma_first_match_concat(left.leaves(), right.leaves(), p);
                left.lemma_lookup_is_first_match(p);
                right.lemma_lookup_is_first_match(p);
                if first_match(self.leaves(), p).is_some() {
                    self.lemma_match_within_bounds(p);
                }
            },
        }
    }
}

impl BoundingVolumeHierarchy {
    /// The tree, where there is one, is well formed.
    pub open spec fn wf(self) -> bool {
        match self.root {
            Some(t) => t.wf(),
            None => true,
        }
    }

    /// The entries at the leaves, from left to right.
    pub open spec fn leaves(self) -> Seq<Entry> {
        match self.root {
            Some(t) => t.leaves(),
            None => Seq::empty(),
        }
    }

    /// The box at every leaf is sound for its shape.
    pub open spec fn sound(self) -> bool {
        forall|i: int| 0 <= i < self.leaves().len() ==> (#[trigger] self.leaves()[i]).sound()
    }

    /// What a query finds: nothing for a point outside the world or in an
    /// empty hierarchy, else what the tree answers.
    pub open spec fn lookup(self, p: Vec3) -> Option<u16> {
        match self.root {
            Some(t) => if p.in_world() {
                t.lookup(p)
            } else {
                None
            },
            None => None,
        }
    }

    /// The hierarchy over the given entries: empty over none, else their
    /// tree.
    pub open spec fn over(entries: Seq<Entry>) -> BoundingVolumeHierarchy {
        BoundingVolumeHierarchy {
            root: if entries.len() == 0 {
                None
            } else {
                Some(tree_of(entries))
            },
        }
    }

    /// The id that a query returns: that of the shape found, else
    /// `UNASSIGNED`.
    pub open spec fn id_at(self, p: Vec3) -> u16 {
        match self.lookup(p) {
            Some(id) => id,
            None => UNASSIGNED,
        }
    }

    /// The id of the first entry, in order, whose shape contains the point
    /// of the world, else `UNASSIGNED`.
    pub open spec fn first_id(s: Seq<Entry>, p: Vec3) -> u16 {
        if !p.in_world() {
            UNASSIGNED
        } else {
            match first_match(s, p) {
                Some(id) => id,
                None => UNASSIGNED,
            }
        }
    }

    /// Builds the hierarchy over the given shapes and boxes.
    pub fn new(shapes_with_boxes: Vec<Entry>) -> (h: BoundingVolumeHierarchy)
        requires
            all_wf(shapes_with_boxes@),
        ensures
            h == Self::over(shapes_with_boxes@),
            h.wf(),
            h.root.is_none() <==> shapes_with_boxes@.len() == 0,
            h.leaves().to_multiset() == shapes_with_boxes@.to_multiset(),
            h.leaves().len() == shapes_with_boxes@.len(),
            h.root.is_some() ==> h.root.unwrap().balanced() && h.root.unwrap().ordered(),
            h.root.is_some() ==> h.root.unwrap().bounds() == enclosure(shapes_with_boxes@),
    {
        if shapes_with_boxes.len() == 0 {
            assert(shapes_with_boxes@ =~= Seq::empty());
            BoundingVolumeHierarchy { root: None }
        } else {
            BoundingVolumeHierarchy { root: Some(Node::build(shapes_with_boxes)) }
        }
    }

    /// Answers which shape contains the point: `id_at`.
    pub fn get_object_id(&self, p: &Vec3) -> (id: u16)
        requires
            self.wf(),
        ensures
            id == self.id_at(*p),
    {
        if !p.is_in_world() {
            return UNASSIGNED;
        }
        match &self.root {
            Some(t) => match t.find(p) {
                Some(id) => id,
                None => UNASSIGNED,
            },
            None => UNASSIGNED,
        }
    }

    /// The hierarchy over well-formed entries is well formed, and its
    /// leaves are the entries, in some order.
    pub proof fn lemma_over(entries: Seq<Entry>)
        requires
            all_wf(entries),
        ensures
            Self::over(entries).wf(),
            Self::over(entries).leaves().to_multiset() == entries.to_multiset(),
    {
        if entries.len() == 0 {
            assert(entries =~= Seq::empty());
        } else {
            lemma_tree_of(entries);
        }
    }

    /// A hierarchy over entries with sound boxes is sound.
    pub proof fn lemma_sound_over(self, entries: Seq<Entry>)
        requires
            self.leaves().to_multiset() == entries.to_multiset(),
            forall|i: int| 0 <= i < entries.len() ==> (#[trigger] entries[i]).sound(),
        ensures
            self.sound(),
    {
        let order = self.leaves();
        lemma_same_members(order, entries);
        assert forall|i: int| 0 <= i < order.len() implies (#[trigger] order[i]).sound() by {
            let w = choose|w: int| 0 <= w < entries.len() && entries[w] == order[i];
        }
    }

    /// Over no shapes every point is unassigned.
    pub proof fn lemma_empty_assigns_nothing(self, p: Vec3)
        requires
            self.root.is_none(),
        ensures
            self.id_at(p) == UNASSIGNED,
    {
    }

    /// Pruning loses nothing: with sound boxes, a query returns the id of
    /// the first leaf, from left to right, whose shape contains the point.
    pub proof fn lemma_query_is_first_match(self, p: Vec3)
        requires
            self.wf(),
            self.sound(),
        ensures
            self.id_at(p) == Self::first_id(self.leaves(), p),
    {
        match self.root {
            Some(t) => {
                if p.in_world() {
                    t.lemma_lookup_is_first_match(p);
                }
            },
            None => {},
        }
    }

    /// How the shapes were split does not matter where no two shapes with
    /// different ids contain the point: two sound hierarchies over the same
    /// entries give the same id.
    pub proof fn lemma_split_is_immaterial(
        self,
        other: BoundingVolumeHierarchy,
        p: Vec3,
    )
        requires
            self.wf(),
            self.sound(),
            other.wf(),
            other.sound(),
            self.leaves().to_multiset() == other.leaves().to_multiset(),
            forall|i: int, j: int|
                0 <= i < self.leaves().len() && 0 <= j < self.leaves().len() && (
                #[trigger] self.leaves()[i]).shape.contains(p) && (
                #[trigger] self.leaves()[j]).shape.contains(p) ==> self.leaves()[i].shape.object_id()
                    == self.leaves()[j].shape.object_id(),
        ensures
            self.id_at(p) == other.id_at(p),
    {
        let a = self.leaves();
        let b = other.leaves();
        self.lemma_query_is_first_match(p);
        other.lemma_query_is_first_match(p);
        lemma_same_members(a, b);
        lemma_same_members(b, a);
        lemma_first_match_none(a, p);
        lemma_first_match_none(b, p);
        if p.in_world() {
            if first_match(a, p).is_some() {
                let i = lemma_first_match_some(a, p);
                let k = choose|k: int| 0 <= k < b.len() && b[k] == a[i];
                assert(b[k].shape.contains(p));
                let j = lemma_first_match_some(b, p);
                let m = choose|m: int| 0 <= m < a.len() && a[m] == b[j];
                assert(a[m].shape.contains(p));
            } else if first_match(b, p).is_some() {
                let j = lemma_first_match_some(b, p);
                let m = choose|m: int| 0 <= m < a.len() && a[m] == b[j];
                assert(a[m].shape.contains(p));
            }
        }
    }
}

} // verus!
