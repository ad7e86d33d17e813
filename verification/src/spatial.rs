//! The spatial index behind the palette: an rstar r-tree of color points,
//! kept behind trusted wrappers whose contracts speak of the multiset of
//! points the tree holds.

use vstd::prelude::*;
use vstd::multiset::Multiset;

verus! {

/// An r-tree of color points. The tree is opaque to the verifier; every
/// fact about it flows through `tree_points` and the wrappers below.
#[verifier::external_body]
pub struct ColorTree {
    tree: rstar::RTree<(i32, i32, i32)>,
}

/// The multiset of points a tree holds.
pub uninterp spec fn tree_points(t: ColorTree) -> Multiset<(i32, i32, i32)>;

/// A channel value rescaled into the index's coordinate type.
pub open spec fn channel_ok(c: i32) -> bool {
    0 <= c <= 255
}

/// A point whose three channels all lie in the 8-bit channel range.
pub open spec fn point_ok(p: (i32, i32, i32)) -> bool {
    channel_ok(p.0) && channel_ok(p.1) && channel_ok(p.2)
}

/// Squared Euclidean distance between two points of channel space, the
/// metric rstar's nearest-neighbor query minimizes for integer points.
pub open spec fn dist2(a: (i32, i32, i32), b: (i32, i32, i32)) -> int {
    (a.0 - b.0) * (a.0 - b.0) + (a.1 - b.1) * (a.1 - b.1) + (a.2 - b.2) * (a.2 - b.2)
}

impl ColorTree {
    /// Relies on rstar::RTree::new: creates an empty tree.
    #[verifier::external_body]
    pub(crate) fn new() -> (t: ColorTree)
        ensures
            tree_points(t) == Multiset::<(i32, i32, i32)>::empty(),
    {
        ColorTree { tree: rstar::RTree::new() }
    }

    /// Relies on rstar::RTree::insert: adds the element, also when it is
    /// already present (the tree keeps duplicates).
    #[verifier::external_body]
    pub(crate) fn insert(&mut self, p: (i32, i32, i32))
        ensures
            tree_points(*final(self)) == tree_points(*old(self)).insert(p),
    {
        self.tree.insert(p);
    }

    /// Relies on rstar::RTree::nearest_neighbor: returns an element at
    /// minimal squared Euclidean distance to the query, and `None` only on
    /// an empty tree. The range bound on every point keeps rstar's internal
    /// i32 distance arithmetic far from overflow.
    #[verifier::external_body]
    pub(crate) fn nearest(&self, q: (i32, i32, i32)) -> (r: Option<(i32, i32, i32)>)
        requires
            point_ok(q),
            forall|p: (i32, i32, i32)| tree_points(*self).contains(p) ==> point_ok(p),
        ensures
            match r {
                Some(p) => tree_points(*self).contains(p) && forall|o: (i32, i32, i32)|
                    tree_points(*self).contains(o) ==> dist2(p, q) <= dist2(o, q),
                None => tree_points(*self).len() == 0,
            },
    {
        self.tree.nearest_neighbor(q).copied()
    }

    /// Relies on rstar::RTree::remove: removes and returns one element equal
    /// to the given one, or `None` when no equal element is present.
    #[verifier::external_body]
    pub(crate) fn remove(&mut self, p: (i32, i32, i32)) -> (r: Option<(i32, i32, i32)>)
        ensures
            tree_points(*old(self)).contains(p) ==> r == Some(p) && tree_points(*final(self))
                == tree_points(*old(self)).remove(p),
            !tree_points(*old(self)).contains(p) ==> r == None::<(i32, i32, i32)> && tree_points(
                *final(self),
            ) == tree_points(*old(self)),
    {
        self.tree.remove(&p)
    }
}

} // verus!
