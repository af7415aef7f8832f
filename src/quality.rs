use vstd::prelude::*;
use crate::point::{Point, PointIdx, MAX_POINTS, dist2};
use crate::assign::{Partition, populated_count};
use crate::update::{partition_fits, cluster_points, mean, sq_err, lemma_mean_minimises};

verus! {

/// The outcome of one clustering run.
#[derive(Clone, Copy, PartialEq, Eq, Structural, Debug)]
pub struct KMeansResult {
    /// Sum of squared distances from each point to its centroid, in squared
    /// grid units.
    pub sse: u128,
    /// Number of clusters that hold at least one point.
    pub k: usize,
}

/// Sum of squared distances from the points of `d` that `m` names to `c`.
pub open spec fn cluster_sse(d: Seq<Point>, m: Seq<PointIdx>, c: Point) -> int
    decreases m.len(),
{
    if m.len() == 0 {
        0
    } else {
        cluster_sse(d, m.drop_last(), c) + dist2(d[m.last().0 as int], c)
    }
}

/// Sum of the squared errors of the first `n` clusters, each measured
/// against the centroid of the same index.
pub open spec fn sse_upto(d: Seq<Point>, p: Seq<Seq<PointIdx>>, cs: Seq<Point>, n: int) -> int
    decreases n,
{
    if n <= 0 {
        0
    } else {
        sse_upto(d, p, cs, n - 1) + cluster_sse(d, p[n - 1], cs[n - 1])
    }
}

/// Sum of squared errors of a partition against its centroids.
pub open spec fn sse(d: Seq<Point>, p: Seq<Seq<PointIdx>>, cs: Seq<Point>) -> int {
    sse_upto(d, p, cs, p.len() as int)
}

/// A squared distance on the grid is below 2^65.
proof fn lemma_dist2_bound(a: Point, b: Point)
    ensures
        0 <= dist2(a, b) <= 0x2_0000_0000_0000_0000,
{
    let dx = a.x - b.x;
    let dy = a.y - b.y;
    assert(0 <= dx * dx <= 0x1_0000_0000_0000_0000) by (nonlinear_arith)
        requires -0x1_0000_0000 <= dx <= 0x1_0000_0000;
    assert(0 <= dy * dy <= 0x1_0000_0000_0000_0000) by (nonlinear_arith)
        requires -0x1_0000_0000 <= dy <= 0x1_0000_0000;
}

/// Sum of squared errors of partition `assoc` against `centroids`, and the
/// number of populated clusters.
pub fn calc_sse(dataset: &Vec<Point>, assoc: &Partition, centroids: &Vec<Point>) -> (r: KMeansResult)
    requires
        assoc@.len() == centroids.len() <= MAX_POINTS,
        partition_fits(dataset@, assoc@),
    ensures
        r.sse == sse(dataset@, assoc@, centroids@),
        r.k == populated_count(assoc@, assoc@.len() as int),
{
    let ghost p = assoc@;
    let mut total: u128 = 0;
    let mut c: usize = 0;
    while c < assoc.clusters.len()
        invariant
            c <= assoc.clusters.len() == centroids.len() <= MAX_POINTS,
            p == assoc@,
            partition_fits(dataset@, p),
            total == sse_upto(dataset@, p, centroids@, c as int),
            total <= c * (MAX_POINTS * 0x2_0000_0000_0000_0000),
        decreases assoc.clusters.len() - c,
    {
        let members = &assoc.clusters[c];
        let ctr = centroids[c];
        assert(members@ == p[c as int]);
        let mut sub: u128 = 0;
        let mut j: usize = 0;
        while j < members.len()
            invariant
                j <= members.len() <= MAX_POINTS,
                members@ == p[c as int],
                c < p.len(),
                partition_fits(dataset@, p),
                sub == cluster_sse(dataset@, members@.take(j as int), ctr),
                sub <= j * 0x2_0000_0000_0000_0000,
            decreases members.len() - j,
        {
            assert(members@[j as int] == p[c as int][j as int]);
            let q = dataset[members[j].0];
            proof {
                lemma_dist2_bound(q, ctr);
                assert(members@.take(j as int + 1).drop_last() =~= members@.take(j as int));
            }
            sub = sub + q.distance_squared(&ctr);
            j = j + 1;
        }
        assert(members@.take(members.len() as int) =~= members@);
        assert(sub <= MAX_POINTS * 0x2_0000_0000_0000_0000) by (nonlinear_arith)
            requires
                sub <= j * 0x2_0000_0000_0000_0000,
                j <= MAX_POINTS,
        ;
        assert(c * (MAX_POINTS * 0x2_0000_0000_0000_0000) + MAX_POINTS * 0x2_0000_0000_0000_0000 == (c + 1) * (
        MAX_POINTS * 0x2_0000_0000_0000_0000)) by (nonlinear_arith);
        assert((c + 1) * (MAX_POINTS * 0x2_0000_0000_0000_0000) <= MAX_POINTS * (MAX_POINTS * 0x2_0000_0000_0000_0000))
            by (nonlinear_arith)
            requires
                c < MAX_POINTS,
        ;
        total = total + sub;
        c = c + 1;
    }
    let k = assoc.populated();
    KMeansResult { sse: total, k }
}

/// The sum of squared errors is never negative.
pub proof fn lemma_sse_nonnegative(d: Seq<Point>, p: Seq<Seq<PointIdx>>, cs: Seq<Point>)
    requires
        p.len() <= cs.len(),
        forall|c: int, j: int| 0 <= c < p.len() && 0 <= j < p[c].len() ==> (#[trigger] p[c][j]).0 < d.len(),
    ensures
        sse(d, p, cs) >= 0,
{
    lemma_sse_upto_nonnegative(d, p, cs, p.len() as int);
}

proof fn lemma_sse_upto_nonnegative(d: Seq<Point>, p: Seq<Seq<PointIdx>>, cs: Seq<Point>, n: int)
    requires
        n <= p.len(),
    ensures
        sse_upto(d, p, cs, n) >= 0,
    decreases n,
{
    if n > 0 {
        lemma_sse_upto_nonnegative(d, p, cs, n - 1);
        lemma_cluster_sse_nonnegative(d, p[n - 1], cs[n - 1]);
    }
}

proof fn lemma_cluster_sse_nonnegative(d: Seq<Point>, m: Seq<PointIdx>, c: Point)
    ensures
        cluster_sse(d, m, c) >= 0,
    decreases m.len(),
{
    if m.len() > 0 {
        lemma_cluster_sse_nonnegative(d, m.drop_last(), c);
        lemma_dist2_bound(d[m.last().0 as int], c);
    }
}

proof fn lemma_cluster_sse_points(d: Seq<Point>, m: Seq<PointIdx>, c: Point)
    ensures
        cluster_sse(d, m, c) == sq_err(cluster_points(d, m), c),
    decreases m.len(),
{
    if m.len() > 0 {
        lemma_cluster_sse_points(d, m.drop_last(), c);
        assert(cluster_points(d, m).drop_last() =~= cluster_points(d, m.drop_last()));
    }
}

/// The centroid that the update step gives a non-empty cluster has the least
/// squared error of all grid points for that cluster.
pub proof fn lemma_update_minimises_cluster(d: Seq<Point>, m: Seq<PointIdx>, q: Point)
    requires
        m.len() > 0,
    ensures
        cluster_sse(d, m, mean(cluster_points(d, m))) <= cluster_sse(d, m, q),
{
    lemma_cluster_sse_points(d, m, mean(cluster_points(d, m)));
    lemma_cluster_sse_points(d, m, q);
    lemma_mean_minimises(cluster_points(d, m), q);
}

} // verus!
