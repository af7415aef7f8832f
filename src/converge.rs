use vstd::prelude::*;
use vstd::relations::{sorted_by, total_ordering};
use vstd::seq_lib::lemma_sorted_unique;
use crate::point::Point;

verus! {

/// The canonical order of points: by x, then by y.
pub open spec fn point_le(a: Point, b: Point) -> bool {
    a.x < b.x || (a.x == b.x && a.y <= b.y)
}

/// The canonical order as a relation.
pub open spec fn point_order() -> spec_fn(Point, Point) -> bool {
    |a: Point, b: Point| point_le(a, b)
}

/// Two centroid sets hold the same points, each as many times, in any order.
pub open spec fn same_centroids(a: Seq<Point>, b: Seq<Point>) -> bool {
    a.to_multiset() == b.to_multiset()
}

proof fn lemma_point_le_total()
    ensures
        total_ordering(point_order()),
{
}

/// Relies on `slice::sort_unstable_by_key`: the items are permuted so that
/// their keys, `(x, y)` pairs in the lexicographic order of tuples, ascend.
#[verifier::external_body]
fn sort_by_point_key(v: &mut Vec<Point>)
    ensures
        final(v)@.to_multiset() == old(v)@.to_multiset(),
        sorted_by(final(v)@, point_order()),
{
    v.sort_unstable_by_key(|p| p.key())
}

/// A copy of `v` in the canonical order (by x, then by y).
pub fn sort_point_vec(v: &Vec<Point>) -> (r: Vec<Point>)
    ensures
        r@.to_multiset() == v@.to_multiset(),
        sorted_by(r@, point_order()),
{
    let mut out: Vec<Point> = Vec::new();
    let mut i: usize = 0;
    while i < v.len()
        invariant
            i <= v.len(),
            out@ == v@.take(i as int),
        decreases v.len() - i,
    {
        out.push(v[i]);
        proof {
            assert(v@.take(i as int + 1) =~= v@.take(i as int).push(v@[i as int]));
        }
        i = i + 1;
    }
    assert(v@.take(v.len() as int) =~= v@);
    sort_by_point_key(&mut out);
    out
}

/// Whether two centroid sets are equal up to order: their canonical orderings
/// agree element by element. Sets of different sizes never agree.
pub fn has_converged(old_centroids: &Vec<Point>, new_centroids: &Vec<Point>) -> (r: bool)
    ensures
        r == same_centroids(old_centroids@, new_centroids@),
{
    let a = sort_point_vec(old_centroids);
    let b = sort_point_vec(new_centroids);
    proof {
        lemma_point_le_total();
    }
    if a.len() != b.len() {
        proof {
            a@.to_multiset_ensures();
            b@.to_multiset_ensures();
        }
        return false;
    }
    let mut i: usize = 0;
    while i < a.len()
        invariant
            i <= a.len() == b.len(),
            forall|j: int| 0 <= j < i ==> a@[j] == b@[j],
            sorted_by(a@, point_order()),
            sorted_by(b@, point_order()),
            total_ordering(point_order()),
            a@.to_multiset() == old_centroids@.to_multiset(),
            b@.to_multiset() == new_centroids@.to_multiset(),
        decreases a.len() - i,
    {
        if a[i] != b[i] {
            proof {
                if same_centroids(old_centroids@, new_centroids@) {
                    lemma_sorted_unique(a@, b@, point_order());
                }
            }
            return false;
        }
        i = i + 1;
    }
    assert(a@ =~= b@);
    true
}

/// Convergence does not depend on which centroid set is called old.
pub proof fn lemma_converged_symmetric(a: Seq<Point>, b: Seq<Point>)
    ensures
        same_centroids(a, b) == same_centroids(b, a),
{
}

/// Reordering a centroid set does not change whether it has converged.
pub proof fn lemma_converged_reorder(a: Seq<Point>, b: Seq<Point>, c: Seq<Point>)
    requires
        b.to_multiset() == c.to_multiset(),
    ensures
        same_centroids(a, b) == same_centroids(a, c),
{
}

} // verus!
