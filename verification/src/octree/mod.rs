//! Partition tree over three-dimensional space.

use vstd::prelude::*;
use crate::key::SpatialKey;
use crate::node;
use crate::node::{Node, Region};
use crate::seqs;

pub use self::volume::Volume;

mod volume;

verus! {

/// The capacity of a node of a tree made by [`Octree::new`].
const DEFAULT_CAPACITY: usize = 8;

/// Implemented by the items of a [`Octree`].
///
/// An implementation in unverified code gives `octree_point` the body of
/// `octree_index`.
pub trait Index<T: SpatialKey> {
    /// The position of `self`, as `[x, y, z]`.
    spec fn octree_point(&self) -> [T; 3];

    /// Returns the position of `self` in 3D space, in the order `[x, y, z]`.
    /// It is the same position at every call.
    fn octree_index(&self) -> (r: [T; 3])
        ensures
            r == self.octree_point(),
    ;
}

/// A point is an item of its own: its position is itself.
impl<T: SpatialKey> Index<T> for [T; 3] {
    open spec fn octree_point(&self) -> [T; 3] {
        *self
    }

    fn octree_index(&self) -> (r: [T; 3]) {
        *self
    }
}

/// A box is the bounding volume of a node of a octree: an item lies in it
/// where its position does, and its parts are its eight octants.
impl<T: SpatialKey, P: Index<T>> Region<P> for Volume<T> {
    open spec fn parts() -> nat {
        8
    }

    open spec fn holds(self, item: P) -> bool {
        self.contains_spec(item.octree_point())
    }

    open spec fn meets(self, other: Self) -> bool {
        self.intersects_spec(other)
    }

    open spec fn part(self, k: int) -> Self {
        self.octant_spec(k)
    }

    fn count() -> (n: usize) {
        8
    }

    fn holds_item(&self, item: &P) -> (r: bool) {
        self.contains(&item.octree_index())
    }

    fn meets_volume(&self, other: &Self) -> (r: bool) {
        self.intersects(other)
    }

    fn cut(&self, k: usize) -> (r: Self) {
        self.octant(k)
    }

    proof fn lemma_common_item(self, other: Self, item: P) {
        self.lemma_common_point_intersects(other, item.octree_point());
    }

    proof fn lemma_parts_cover(self, item: P) -> (k: int) {
        self.lemma_octants_cover(item.octree_point())
    }
}

/// The test that a box query makes of an item: its position lies in
/// `volume`.
pub open spec fn inside<T: SpatialKey, P: Index<T>>(volume: Volume<T>) -> spec_fn(P) -> bool {
    |item: P| volume.contains_spec(item.octree_point())
}

/// The box that a sphere lies in: from `center[i] - radius` to
/// `center[i] + radius` on each axis.
pub open spec fn bounding_box<T: SpatialKey>(center: [T; 3], radius: T) -> Volume<T> {
    Volume {
        min: [
            center[0].minus_spec(radius),
            center[1].minus_spec(radius),
            center[2].minus_spec(radius),
        ],
        max: [
            center[0].plus_spec(radius),
            center[1].plus_spec(radius),
            center[2].plus_spec(radius),
        ],
    }
}

/// The sum of the squares of the differences of two points, axis by axis.
pub open spec fn squared_distance<T: SpatialKey>(a: [T; 3], b: [T; 3]) -> T {
    a[0].minus_spec(b[0]).square_spec().plus_spec(a[1].minus_spec(b[1]).square_spec()).plus_spec(
        a[2].minus_spec(b[2]).square_spec(),
    )
}

/// The Euclidean distance of two points in the arithmetic of `T`.
pub open spec fn distance<T: SpatialKey>(a: [T; 3], b: [T; 3]) -> T {
    squared_distance(a, b).sqrt_spec()
}

/// The test that a radius query makes of the items in the bounding box of
/// its sphere: the distance to the center is at most the radius.
pub open spec fn within<T: SpatialKey, P: Index<T>>(center: [T; 3], radius: T) -> spec_fn(
    P,
) -> bool {
    |item: P| distance(item.octree_point(), center).leq_spec(radius)
}

/// The test of an item with integer coordinates whose Euclidean distance to
/// `center` is at most `radius`: the sum of the squares of the differences
/// is at most the square of the radius.
pub open spec fn euclidean<P: Index<i64>>(center: [i64; 3], radius: i64) -> spec_fn(P) -> bool {
    |item: P|
        {
            let point = item.octree_point();
            (point[0] - center[0]) * (point[0] - center[0]) + (point[1] - center[1]) * (point[1]
                - center[1]) + (point[2] - center[2]) * (point[2] - center[2]) <= radius * radius
        }
}

/// With integer coordinates that differ from those of the center by at most
/// 2^30 on each axis, the test of a radius query is the Euclidean one: the
/// sum of the squares of the differences is at most the square of the radius.
pub proof fn lemma_within_is_euclidean(point: [i64; 3], center: [i64; 3], radius: i64)
    requires
        0 <= radius,
        -0x4000_0000 <= point[0] - center[0] <= 0x4000_0000,
        -0x4000_0000 <= point[1] - center[1] <= 0x4000_0000,
        -0x4000_0000 <= point[2] - center[2] <= 0x4000_0000,
    ensures
        distance(point, center).leq_spec(radius) <==> (point[0] - center[0]) * (point[0]
            - center[0]) + (point[1] - center[1]) * (point[1] - center[1]) + (point[2]
            - center[2]) * (point[2] - center[2]) <= radius * radius,
{
    let dx = point[0] - center[0];
    let dy = point[1] - center[1];
    let dz = point[2] - center[2];
    assert(0 <= dx * dx <= 0x1000_0000_0000_0000) by (nonlinear_arith)
        requires
            -0x4000_0000 <= dx <= 0x4000_0000,
    ;
    assert(0 <= dy * dy <= 0x1000_0000_0000_0000) by (nonlinear_arith)
        requires
            -0x4000_0000 <= dy <= 0x4000_0000,
    ;
    assert(0 <= dz * dz <= 0x1000_0000_0000_0000) by (nonlinear_arith)
        requires
            -0x4000_0000 <= dz <= 0x4000_0000,
    ;
    let sum = dx * dx + dy * dy + dz * dz;
    assert(squared_distance(point, center) == sum);
    crate::key::lemma_root_up_exists(sum);
    crate::key::lemma_root_up_at_most(sum, radius as int);
    let root = crate::key::root_up(sum);
    assert(root <= 0x1_0000_0000) by (nonlinear_arith)
        requires
            root > 0 ==> (root - 1) * (root - 1) < sum,
            sum <= 0x3000_0000_0000_0000,
    ;
}

/// An octree: a partition tree whose nodes have boxes in space as
/// volumes, and split into the eight octants of their box.
pub struct Octree<T: SpatialKey, P: Index<T> + Clone> {
    /// The root of the tree.
    root: Node<Volume<T>, P>,
}

impl<T: SpatialKey, P: Index<T> + Clone> Octree<T, P> {
    /// The root of the tree, through which [`Node`] tells how the tree is
    /// built.
    pub closed spec fn root(&self) -> Node<Volume<T>, P> {
        self.root
    }

    /// All items of the tree: those of the root itself, then those of each
    /// octant in turn.
    pub open spec fn view(&self) -> Seq<P> {
        self.root()@
    }

    /// The bounding volume of the tree.
    pub open spec fn bounds(&self) -> Volume<T> {
        self.root().bounds()
    }

    /// The number of items that a leaf of the tree holds at most.
    pub open spec fn node_capacity(&self) -> usize {
        self.root().node_capacity()
    }

    /// The invariant of the tree: that of its nodes, see [`Node::wf`], at a
    /// root.
    pub open spec fn wf(&self) -> bool {
        self.root().wf() && self.root().is_root()
    }

    /// An item passes the test that the nodes make of it exactly where it
    /// passes the test of the box query.
    proof fn lemma_inside_is_holding(items: Seq<P>, volume: Volume<T>)
        ensures
            items.filter(node::holding(volume)) == items.filter(inside(volume)),
            seqs::every(items, node::holding(volume)) == seqs::every(items, inside(volume)),
    {
        seqs::lemma_filter_agrees(items, node::holding(volume), inside(volume));
        if seqs::every(items, node::holding(volume)) {
            assert forall|i: int| 0 <= i < items.len() implies inside(volume)(
                #[trigger] items[i],
            ) by {
                assert(node::holding(volume)(items[i]));
            }
        }
        if seqs::every(items, inside(volume)) {
            assert forall|i: int| 0 <= i < items.len() implies node::holding(volume)(
                #[trigger] items[i],
            ) by {
                assert(inside(volume)(items[i]));
            }
        }
    }

    /// Constructs a new, empty `Octree` with bounding volume `vol` and the
    /// default node capacity of 8.
    pub fn new(vol: Volume<T>) -> (r: Octree<T, P>)
        ensures
            r.wf(),
            r@ == Seq::<P>::empty(),
            r.bounds() == vol,
            r.node_capacity() == 8,
            r.root().is_leaf(),
    {
        Octree { root: Node::new(vol, DEFAULT_CAPACITY) }
    }

    /// Creates an empty octree with volume `vol` and `capacity`.
    pub fn with_capacity(vol: Volume<T>, capacity: usize) -> (r: Octree<T, P>)
        ensures
            r.wf(),
            r@ == Seq::<P>::empty(),
            r.bounds() == vol,
            r.node_capacity() == capacity,
            r.root().is_leaf(),
    {
        Octree { root: Node::new(vol, capacity) }
    }

    /// Returns the number of items in the tree.
    pub fn len(&self) -> (r: usize)
        requires
            self.wf(),
        ensures
            r == self@.len(),
    {
        self.root.len()
    }

    /// Inserts an `item` into the octree, subdividing it if necessary.
    ///
    /// Returns whether the item lies in the volume of the tree. If it does
    /// the item is in the tree afterwards, and else the tree is as before.
    ///
    /// A leaf with room takes the item itself. A full leaf is split first,
    /// and the items that it held are stored anew, oldest first, as the new
    /// item is after them: each in the first octant that accepts it. An
    /// item that comes to a split node goes to the first octant that
    /// accepts it. A node [`node::MAX_DEPTH`] levels below the root is not
    /// split: when it is full it accepts no item, and an item that no
    /// octant accepts stays in the split node itself.
    pub fn insert(&mut self, item: P) -> (r: bool)
        requires
            old(self).wf(),
            old(self)@.len() < usize::MAX,
        ensures
            final(self).wf(),
            final(self).bounds() == old(self).bounds(),
            final(self).node_capacity() == old(self).node_capacity(),
            r == old(self).bounds().contains_spec(item.octree_point()),
            final(self)@.len() == old(self)@.len() + if r { 1nat } else { 0nat },
            !r ==> {
                &&& final(self)@ == old(self)@
                &&& final(self).root().held() == old(self).root().held()
                &&& final(self).root().children() == old(self).root().children()
            },
            r ==> final(self)@.to_multiset() == old(self)@.to_multiset().insert(item),
            r ==> old(self).root().took(final(self).root(), item),
            r && old(self).root().is_leaf() && old(self)@.len() < old(self).node_capacity() ==> {
                &&& final(self).root().is_leaf()
                &&& final(self)@ == old(self)@.push(item)
            },
            r && old(self).root().is_leaf() && old(self)@.len() >= old(self).node_capacity() ==> {
                &&& !final(self).root().is_leaf()
                &&& final(self).root().held() == Seq::<P>::empty()
            },
            r && !old(self).root().is_leaf() ==> {
                &&& !final(self).root().is_leaf()
                &&& old(self).root().settled_at(
                    final(self).root(),
                    item,
                    old(self).root().first_taker(item),
                )
            },
    {
        proof {
            self.root.lemma_wf_unfolds();
        }
        self.root.insert(item)
    }

    /// Returns all items inside the volume `vol`: those that the root holds
    /// itself, oldest first, then those of each octant in turn.
    pub fn get_in_volume<'a>(&'a self, vol: &Volume<T>) -> (r: Vec<&'a P>)
        requires
            self.wf(),
        ensures
            seqs::values(r@) == self@.filter(inside(*vol)),
    {
        proof {
            Self::lemma_inside_is_holding(self@, *vol);
        }
        self.root.get_in_volume(vol)
    }

    /// Returns all items within `radius` of `center`: those that
    /// [`Self::get_in_volume`] finds in the bounding box of the sphere and
    /// whose distance to the center is at most the radius, in the same
    /// order.
    pub fn get_in_radius<'a>(&'a self, center: [T; 3], radius: T) -> (r: Vec<&'a P>)
        requires
            self.wf(),
        ensures
            seqs::values(r@) == self@.filter(inside(bounding_box(center, radius))).filter(
                within(center, radius),
            ),
    {
        let min = [center[0].minus(radius), center[1].minus(radius), center[2].minus(radius)];
        let max = [center[0].plus(radius), center[1].plus(radius), center[2].plus(radius)];
        assert(min =~= bounding_box(center, radius).min);
        assert(max =~= bounding_box(center, radius).max);

        let volume = Volume::new(min, max);
        let in_box = self.get_in_volume(&volume);

        let mut in_sphere: Vec<&'a P> = Vec::new();

        let mut i: usize = 0;
        while i < in_box.len()
            invariant
                i <= in_box@.len(),
                seqs::values(in_sphere@) == seqs::values(in_box@).take(i as int).filter(
                    within(center, radius),
                ),
            decreases in_box@.len() - i,
        {
            let ghost so_far = in_sphere@;
            let item = in_box[i];
            let index = item.octree_index();
            let d0 = index[0].minus(center[0]).square();
            let d1 = index[1].minus(center[1]).square();
            let d2 = index[2].minus(center[2]).square();
            proof {
                T::lemma_square_has_root(index[0].minus_spec(center[0]));
                T::lemma_square_has_root(index[1].minus_spec(center[1]));
                T::lemma_square_has_root(index[2].minus_spec(center[2]));
                T::lemma_plus_has_root(d0, d1);
                T::lemma_plus_has_root(d0.plus_spec(d1), d2);
            }
            let distance = d0.plus(d1).plus(d2).sqrt();

            if distance.leq(&radius) {
                in_sphere.push(item);
            }
            proof {
                let seen = seqs::values(in_box@).take(i as int);
                assert(seqs::values(in_box@).take(i + 1) =~= seen.push(*item));
                seen.lemma_filter_push(*item, within(center, radius));
                if distance.leq_spec(radius) {
                    assert(seqs::values(in_sphere@) =~= seqs::values(so_far).push(*item));
                }
            }
            i += 1;
        }
        assert(seqs::values(in_box@).take(i as int) =~= seqs::values(in_box@));
        in_sphere
    }

    /// A query for the volume of the tree returns every item of the tree:
    /// each item that an insertion has accepted, and no other.
    pub proof fn lemma_query_of_bounds_returns_all(&self)
        requires
            self.wf(),
        ensures
            self@.filter(inside(self.bounds())) == self@,
    {
        self.root().lemma_wf_unfolds();
        Self::lemma_inside_is_holding(self@, self.bounds());
        seqs::lemma_filter_keeps_all(self@, inside(self.bounds()));
    }

    /// An item that a radius query returns is among those that the box query
    /// for the bounding box of the sphere returns, and its distance to the
    /// center is at most the radius.
    pub proof fn lemma_radius_query_refines_box_query(&self, center: [T; 3], radius: T, item: P)
        requires
            self@.filter(inside(bounding_box(center, radius))).filter(
                within(center, radius),
            ).contains(item),
        ensures
            self@.filter(inside(bounding_box(center, radius))).contains(item),
            bounding_box(center, radius).contains_spec(item.octree_point()),
            distance(item.octree_point(), center).leq_spec(radius),
    {
        let in_box = self@.filter(inside(bounding_box(center, radius)));
        let in_sphere = in_box.filter(within(center, radius));
        let i = choose|i: int| 0 <= i < in_sphere.len() && in_sphere[i] == item;
        in_box.lemma_filter_pred(within(center, radius), i);
        in_box.lemma_filter_contains_rev(within(center, radius), item);
        let j = choose|j: int| 0 <= j < in_box.len() && in_box[j] == item;
        self@.lemma_filter_pred(inside(bounding_box(center, radius)), j);
    }

    /// Queries for two volumes that do not intersect return no item in
    /// common.
    pub proof fn lemma_disjoint_queries_share_nothing(&self, a: Volume<T>, b: Volume<T>, item: P)
        requires
            !a.intersects_spec(b),
            self@.filter(inside(a)).contains(item),
        ensures
            !self@.filter(inside(b)).contains(item),
    {
        let in_a = self@.filter(inside(a));
        let in_b = self@.filter(inside(b));
        let i = choose|i: int| 0 <= i < in_a.len() && in_a[i] == item;
        self@.lemma_filter_pred(inside(a), i);
        if in_b.contains(item) {
            let j = choose|j: int| 0 <= j < in_b.len() && in_b[j] == item;
            self@.lemma_filter_pred(inside(b), j);
            a.lemma_common_point_intersects(b, item.octree_point());
        }
    }
}

impl<P: Index<i64> + Clone> Octree<i64, P> {
    /// On integer coordinates a radius query returns the items whose
    /// Euclidean distance to the center is at most the radius, where the
    /// radius is at most 2^30 and the bounding box of the sphere has
    /// coordinates in the range of `i64`.
    pub proof fn lemma_radius_query_is_euclidean(&self, center: [i64; 3], radius: i64)
        requires
            0 <= radius <= 0x4000_0000,
            i64::MIN + radius <= center[0] <= i64::MAX - radius,
            i64::MIN + radius <= center[1] <= i64::MAX - radius,
            i64::MIN + radius <= center[2] <= i64::MAX - radius,
        ensures
            self@.filter(inside(bounding_box(center, radius))).filter(within(center, radius))
                == self@.filter(euclidean(center, radius)),
    {
        let in_box = inside::<i64, P>(bounding_box(center, radius));
        let near = within::<i64, P>(center, radius);
        let both = |item: P| in_box(item) && near(item);
        seqs::lemma_filter_twice(self@, in_box, near);
        assert forall|i: int| 0 <= i < self@.len() implies both(#[trigger] self@[i])
            == euclidean::<P>(center, radius)(self@[i]) by {
            let point = self@[i].octree_point();
            let dx = point[0] - center[0];
            let dy = point[1] - center[1];
            let dz = point[2] - center[2];
            if in_box(self@[i]) {
                lemma_within_is_euclidean(point, center, radius);
            } else {
                assert(dx * dx + dy * dy + dz * dz > radius * radius) by (nonlinear_arith)
                    requires
                        0 <= radius,
                        dx < -radius || dx > radius || dy < -radius || dy > radius || dz < -radius
                            || dz > radius,
                ;
            }
        }
        seqs::lemma_filter_agrees(self@, both, euclidean::<P>(center, radius));
    }
}

} // verus!
