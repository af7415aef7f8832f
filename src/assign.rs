use vstd::prelude::*;
use crate::point::{Point, PointIdx, CentroidIdx, KMeansError, dist2};

verus! {

broadcast use vstd::seq_lib::group_to_multiset_ensures, vstd::multiset::group_multiset_axioms;

/// Index of the nearest of the first `n` centroids; on a tie the lowest index.
pub open spec fn nearest_upto(p: Point, cs: Seq<Point>, n: int) -> int
    decreases n,
{
    if n <= 1 {
        0
    } else {
        let j = nearest_upto(p, cs, n - 1);
        if dist2(p, cs[n - 1]) < dist2(p, cs[j]) {
            n - 1
        } else {
            j
        }
    }
}

/// Index of the centroid nearest to `p`; on a tie the lowest index.
pub open spec fn nearest(p: Point, cs: Seq<Point>) -> int {
    nearest_upto(p, cs, cs.len() as int)
}

/// `i` is a centroid at least as near to `p` as every other, and strictly
/// nearer than every centroid before it.
pub open spec fn is_nearest(p: Point, cs: Seq<Point>, i: int) -> bool {
    &&& 0 <= i < cs.len()
    &&& forall|j: int| 0 <= j < cs.len() ==> dist2(p, cs[i]) <= dist2(p, cs[j])
    &&& forall|j: int| 0 <= j < i ==> dist2(p, cs[i]) < dist2(p, cs[j])
}

/// The centroid index of each point of `d`.
pub open spec fn labels(d: Seq<Point>, cs: Seq<Point>) -> Seq<int> {
    Seq::new(d.len(), |i: int| nearest(d[i], cs))
}

/// The positions among the first `n` labels that equal `c`, in ascending order.
pub open spec fn members_upto(ls: Seq<int>, c: int, n: int) -> Seq<PointIdx>
    decreases n,
{
    if n <= 0 {
        seq![]
    } else if ls[n - 1] == c {
        members_upto(ls, c, n - 1).push(PointIdx((n - 1) as usize))
    } else {
        members_upto(ls, c, n - 1)
    }
}

/// The points that `assign` gives to each centroid, in dataset order.
pub open spec fn assignment(d: Seq<Point>, cs: Seq<Point>) -> Seq<Seq<PointIdx>> {
    Seq::new(cs.len(), |c: int| members_upto(labels(d, cs), c, d.len() as int))
}

pub proof fn lemma_nearest_upto(p: Point, cs: Seq<Point>, n: int)
    requires
        1 <= n <= cs.len(),
    ensures
        is_nearest(p, cs.take(n), nearest_upto(p, cs, n)),
    decreases n,
{
    if n > 1 {
        lemma_nearest_upto(p, cs, n - 1);
        assert(cs.take(n - 1) =~= cs.take(n).take(n - 1));
    }
}

proof fn lemma_members_upto(ls: Seq<int>, c: int, n: int)
    requires
        0 <= n <= ls.len(),
        ls.len() <= usize::MAX,
    ensures
        forall|j: int| 0 <= j < members_upto(ls, c, n).len() ==> {
            let m = #[trigger] members_upto(ls, c, n)[j];
            m.0 < n && ls[m.0 as int] == c
        },
        forall|i: int| 0 <= i < ls.len() ==> #[trigger] members_upto(ls, c, n).to_multiset().count(
            PointIdx(i as usize),
        ) == if i < n && ls[i] == c {
            1nat
        } else {
            0nat
        },
    decreases n,
{
    if n > 0 {
        lemma_members_upto(ls, c, n - 1);
        assert forall|i: int| 0 <= i < ls.len() implies #[trigger] members_upto(
            ls,
            c,
            n,
        ).to_multiset().count(PointIdx(i as usize)) == if i < n && ls[i] == c {
            1nat
        } else {
            0nat
        } by {
            let prev = members_upto(ls, c, n - 1);
            assert(prev.to_multiset().count(PointIdx(i as usize)) == if i < n - 1 && ls[i] == c {
                1nat
            } else {
                0nat
            });
            if ls[n - 1] == c {
                assert(members_upto(ls, c, n) == prev.push(PointIdx((n - 1) as usize)));
            }
        }
    }
}

/// Every point of `d` stands in exactly one cluster of `assign(d, cs)`, the
/// cluster of its nearest centroid, and appears there once; the clusters hold
/// nothing but points of `d`.
pub proof fn lemma_partition_complete(d: Seq<Point>, cs: Seq<Point>)
    requires
        cs.len() > 0,
        d.len() <= usize::MAX,
    ensures
        assignment(d, cs).len() == cs.len(),
        forall|i: int| 0 <= i < d.len() ==> 0 <= #[trigger] nearest(d[i], cs) < cs.len(),
        forall|c: int, i: int|
            0 <= c < cs.len() && 0 <= i < d.len() ==> #[trigger] assignment(d, cs)[c].to_multiset().count(
                PointIdx(i as usize),
            ) == if c == nearest(d[i], cs) {
                1nat
            } else {
                0nat
            },
        forall|c: int, j: int|
            0 <= c < cs.len() && 0 <= j < assignment(d, cs)[c].len() ==> (#[trigger] assignment(
                d,
                cs,
            )[c][j]).0 < d.len(),
{
    assert forall|i: int| 0 <= i < d.len() implies 0 <= #[trigger] nearest(d[i], cs) < cs.len() by {
        lemma_nearest_upto(d[i], cs, cs.len() as int);
    }
    assert forall|c: int, i: int| 0 <= c < cs.len() && 0 <= i < d.len() implies #[trigger] assignment(
        d,
        cs,
    )[c].to_multiset().count(PointIdx(i as usize)) == if c == nearest(d[i], cs) {
        1nat
    } else {
        0nat
    } by {
        lemma_members_upto(labels(d, cs), c, d.len() as int);
    }
    assert forall|c: int, j: int|
        0 <= c < cs.len() && 0 <= j < assignment(d, cs)[c].len() implies (#[trigger] assignment(
        d,
        cs,
    )[c][j]).0 < d.len() by {
        lemma_members_upto(labels(d, cs), c, d.len() as int);
    }
}

/// The clusters of one assignment step: for each centroid index, the points
/// nearest to that centroid, in dataset order. An empty list stands for a
/// centroid that no point is nearest to.
pub struct Partition {
    pub clusters: Vec<Vec<PointIdx>>,
}

impl View for Partition {
    type V = Seq<Seq<PointIdx>>;

    open spec fn view(&self) -> Seq<Seq<PointIdx>> {
        self.clusters@.map_values(|v: Vec<PointIdx>| v@)
    }
}

impl Partition {
    /// Number of centroid indices, populated or not.
    pub fn len(&self) -> (r: usize)
        ensures
            r == self@.len(),
    {
        self.clusters.len()
    }

    /// Number of clusters that hold at least one point.
    pub fn populated(&self) -> (r: usize)
        ensures
            r == populated_count(self@, self@.len() as int),
    {
        let mut n: usize = 0;
        let mut c: usize = 0;
        while c < self.clusters.len()
            invariant
                c <= self.clusters.len(),
                n == populated_count(self@, c as int),
                n <= c,
            decreases self.clusters.len() - c,
        {
            if self.clusters[c].len() > 0 {
                n = n + 1;
            }
            c = c + 1;
        }
        n
    }
}

/// Number of non-empty clusters among the first `c`.
pub open spec fn populated_count(p: Seq<Seq<PointIdx>>, c: int) -> int
    decreases c,
{
    if c <= 0 {
        0
    } else {
        populated_count(p, c - 1) + if p[c - 1].len() > 0 {
            1int
        } else {
            0int
        }
    }
}

/// No more clusters are populated than there are.
pub proof fn lemma_populated_le(p: Seq<Seq<PointIdx>>, c: int)
    requires
        0 <= c,
    ensures
        0 <= populated_count(p, c) <= c,
    decreases c,
{
    if c > 0 {
        lemma_populated_le(p, c - 1);
    }
}

/// The index of the centroid nearest to `p`; on a tie the lowest index.
pub fn nearest_centroid(p: &Point, centroids: &Vec<Point>) -> (r: usize)
    requires
        centroids.len() > 0,
    ensures
        r == nearest(*p, centroids@),
        is_nearest(*p, centroids@, r as int),
{
    let mut best: usize = 0;
    let mut best_d: u128 = p.distance_squared(&centroids[0]);
    let mut i: usize = 1;
    while i < centroids.len()
        invariant
            1 <= i <= centroids.len(),
            best == nearest_upto(*p, centroids@, i as int),
            best < i,
            best_d == dist2(*p, centroids@[best as int]),
        decreases centroids.len() - i,
    {
        let d = p.distance_squared(&centroids[i]);
        if d < best_d {
            best = i;
            best_d = d;
        }
        i = i + 1;
    }
    proof {
        lemma_nearest_upto(*p, centroids@, centroids.len() as int);
        assert(centroids@.take(centroids.len() as int) =~= centroids@);
    }
    best
}

/// Assigns each point of `dataset` to its nearest centroid.
///
/// Fails with `InvalidInput` when the dataset or the centroid set is empty.
pub fn associate_centroids_to_points(dataset: &Vec<Point>, centroids: &Vec<Point>) -> (r: Result<
    Partition,
    KMeansError,
>)
    ensures
        dataset.len() == 0 || centroids.len() == 0 <==> r is Err,
        r matches Err(e) ==> e == KMeansError::InvalidInput,
        r matches Ok(p) ==> p@ == assignment(dataset@, centroids@),
{
    if dataset.len() == 0 || centroids.len() == 0 {
        return Err(KMeansError::InvalidInput);
    }
    let ghost ls = labels(dataset@, centroids@);
    let mut lab: Vec<usize> = Vec::new();
    let mut i: usize = 0;
    while i < dataset.len()
        invariant
            i <= dataset.len(),
            centroids.len() > 0,
            ls == labels(dataset@, centroids@),
            lab.len() == i,
            forall|j: int| 0 <= j < i ==> lab@[j] as int == ls[j],
        decreases dataset.len() - i,
    {
        let c = nearest_centroid(&dataset[i], centroids);
        lab.push(c);
        i = i + 1;
    }
    let mut clusters: Vec<Vec<PointIdx>> = Vec::new();
    let mut c: usize = 0;
    while c < centroids.len()
        invariant
            c <= centroids.len(),
            lab.len() == dataset.len(),
            ls == labels(dataset@, centroids@),
            forall|j: int| 0 <= j < dataset.len() ==> lab@[j] as int == ls[j],
            clusters.len() == c,
            forall|k: int| 0 <= k < c ==> #[trigger] clusters@[k]@ == members_upto(ls, k, dataset.len() as int),
        decreases centroids.len() - c,
    {
        let mut members: Vec<PointIdx> = Vec::new();
        let mut j: usize = 0;
        while j < dataset.len()
            invariant
                j <= dataset.len(),
                lab.len() == dataset.len(),
                forall|m: int| 0 <= m < dataset.len() ==> lab@[m] as int == ls[m],
                members@ == members_upto(ls, c as int, j as int),
            decreases dataset.len() - j,
        {
            if lab[j] == c {
                members.push(PointIdx(j));
            }
            j = j + 1;
        }
        clusters.push(members);
        c = c + 1;
    }
    let r = Partition { clusters };
    assert(r@ =~= assignment(dataset@, centroids@));
    Ok(r)
}

/// The centroid nearest to centroid `idx` among the others; on a tie the
/// lowest index. This is the neighbouring cluster of the silhouette score.
pub fn next_cluster(idx: CentroidIdx, centroids: &Vec<Point>) -> (r: CentroidIdx)
    requires
        idx.0 < centroids.len(),
        centroids.len() >= 2,
    ensures
        r != idx,
        r.0 < centroids.len(),
        forall|j: int|
            0 <= j < centroids.len() && j != idx.0 ==> dist2(centroids@[idx.0 as int], centroids@[r.0 as int])
                <= dist2(centroids@[idx.0 as int], #[trigger] centroids@[j]),
        forall|j: int|
            0 <= j < r.0 && j != idx.0 ==> dist2(centroids@[idx.0 as int], centroids@[r.0 as int]) < dist2(
                centroids@[idx.0 as int],
                #[trigger] centroids@[j],
            ),
{
    let main = centroids[idx.0];
    let mut best: usize = if idx.0 == 0 { 1 } else { 0 };
    let mut best_d: u128 = main.distance_squared(&centroids[best]);
    let mut i: usize = best + 1;
    while i < centroids.len()
        invariant
            best < i <= centroids.len(),
            best != idx.0,
            main == centroids@[idx.0 as int],
            best_d == dist2(main, centroids@[best as int]),
            forall|j: int| 0 <= j < i && j != idx.0 ==> best_d <= dist2(main, #[trigger] centroids@[j]),
            forall|j: int| 0 <= j < best && j != idx.0 ==> best_d < dist2(main, #[trigger] centroids@[j]),
        decreases centroids.len() - i,
    {
        if i != idx.0 {
            let d = main.distance_squared(&centroids[i]);
            if d < best_d {
                best = i;
                best_d = d;
            }
        }
        i = i + 1;
    }
    CentroidIdx(best)
}

proof fn lemma_members_len(ls: Seq<int>, c: int, n: int)
    requires
        0 <= n,
    ensures
        members_upto(ls, c, n).len() <= n,
    decreases n,
{
    if n > 0 {
        lemma_members_len(ls, c, n - 1);
    }
}

/// An assignment of a dataset of accepted size fits the update and scoring
/// steps.
pub proof fn lemma_assignment_fits(d: Seq<Point>, cs: Seq<Point>)
    requires
        cs.len() > 0,
        d.len() <= crate::point::MAX_POINTS,
    ensures
        crate::update::partition_fits(d, assignment(d, cs)),
{
    lemma_partition_complete(d, cs);
    assert forall|c: int| 0 <= c < assignment(d, cs).len() implies #[trigger] assignment(d, cs)[c].len()
        <= crate::point::MAX_POINTS by {
        lemma_members_len(labels(d, cs), c, d.len() as int);
    }
}

} // verus!
