//! The trusted boundary around the rstar R*-tree: bulk loading and the
//! tree-against-tree enumeration of envelope-intersecting pairs.

use crate::geom::{rect_wf, rects_intersect, EnvRect};
use rstar::primitives::{GeomWithData, Rectangle};
use vstd::prelude::*;

verus! {

/// A bulk-loaded R*-tree over axis-aligned rectangles. Entry `k` of the
/// vector the tree was built from is stored tagged with id `k`, so the tree's
/// contents are exactly the build-order sequence named by `tree_rects`. The
/// loader accepts only well-formed rectangles: rstar normalizes the corners
/// it is handed, so a rectangle with a minimum above a maximum would be
/// stored as a different box than the one named.
#[verifier::external_body]
pub struct SegTree {
    tree: rstar::RTree<GeomWithData<Rectangle<[i64; 2]>, u64>>,
}

/// The rectangles a `SegTree` holds, in build order: entry `k` is the
/// rectangle stored with id `k`.
pub uninterp spec fn tree_rects(t: SegTree) -> Seq<EnvRect>;

/// Relies on rstar::RTree::bulk_load: the tree holds exactly the elements it
/// was loaded with — here one rectangle per input entry, tagged with the
/// entry's position.
#[verifier::external_body]
pub fn bulk_load_rects(rects: &Vec<EnvRect>) -> (t: SegTree)
    requires
        forall|k: int| 0 <= k < rects@.len() ==> rect_wf(#[trigger] rects@[k]),
    ensures
        tree_rects(t) == rects@,
{
    let items: Vec<GeomWithData<Rectangle<[i64; 2]>, u64>> = rects
        .iter()
        .enumerate()
        .map(|(k, r)| {
            GeomWithData::new(
                Rectangle::from_corners([r.min_x, r.min_y], [r.max_x, r.max_y]),
                k as u64,
            )
        })
        .collect();
    SegTree { tree: rstar::RTree::bulk_load(items) }
}

/// Relies on rstar::RTree::intersection_candidates_with_other_tree: the
/// simultaneous traversal yields, exactly once each, every pair of elements
/// — one from each tree — whose envelopes intersect, where rectangle
/// intersection is closed in every axis.
#[verifier::external_body]
pub fn intersection_pairs(a: &SegTree, b: &SegTree) -> (pairs: Vec<(u64, u64)>)
    ensures
        forall|k: int|
            0 <= k < pairs@.len() ==> (#[trigger] pairs@[k]).0 < tree_rects(*a).len()
                && pairs@[k].1 < tree_rects(*b).len() && rects_intersect(
                tree_rects(*a)[pairs@[k].0 as int],
                tree_rects(*b)[pairs@[k].1 as int],
            ),
        forall|p: int, q: int|
            0 <= p < tree_rects(*a).len() && 0 <= q < tree_rects(*b).len() && #[trigger]
            rects_intersect(tree_rects(*a)[p], tree_rects(*b)[q]) ==> exists|k: int|
                0 <= k < pairs@.len() && pairs@[k] == (p as u64, q as u64),
        forall|k1: int, k2: int|
            0 <= k1 < k2 < pairs@.len() ==> #[trigger] pairs@[k1] != #[trigger] pairs@[k2],
{
    a.tree
        .intersection_candidates_with_other_tree(&b.tree)
        .map(|(x, y)| (x.data, y.data))
        .collect()
}

} // verus!
