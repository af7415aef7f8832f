use vstd::prelude::*;
use rand::Rng;
use crate::point::{Point, PointIdx, KMeansError, MAX_POINTS, dist2};
use vstd::arithmetic::div_mod::lemma_fundamental_div_mod_converse;
use crate::assign::{Partition, assignment, lemma_populated_le, nearest, labels, members_upto, lemma_nearest_upto, populated_count, associate_centroids_to_points, lemma_partition_complete, lemma_assignment_fits};
use crate::update::{updated, updated_upto, mean, sum_x, sum_y, cluster_points, update_centroids, lemma_updated_len};
use crate::converge::{same_centroids, has_converged};
use crate::quality::{KMeansResult, sse, sse_upto, cluster_sse, calc_sse};

verus! {

#[verifier::external_type_specification]
#[verifier::external_body]
pub struct ExStdRng(rand::rngs::StdRng);

/// Relies on `Rng::gen_range`: a value drawn from the half-open range
/// `0..n`, which must not be empty.
#[verifier::external_body]
fn random_index(rng: &mut rand::rngs::StdRng, n: usize) -> (r: usize)
    requires
        n > 0,
    ensures
        r < n,
{
    rng.gen_range(0..n)
}

/// One iteration of the algorithm: assign, then take the cluster means.
pub open spec fn step(d: Seq<Point>, cs: Seq<Point>) -> Seq<Point> {
    updated(d, assignment(d, cs))
}

/// The centroids on which iteration from `cs` settles within `fuel` steps:
/// the first set whose update holds the same points.
pub open spec fn settle(d: Seq<Point>, cs: Seq<Point>, fuel: nat) -> Option<Seq<Point>>
    decreases fuel,
{
    if fuel == 0 {
        None
    } else if same_centroids(cs, step(d, cs)) {
        Some(cs)
    } else {
        settle(d, step(d, cs), (fuel - 1) as nat)
    }
}

/// A converged run: the final centroids, their partition of the dataset and
/// its score.
pub struct KMeansRun {
    pub centroids: Vec<Point>,
    pub partition: Partition,
    pub result: KMeansResult,
}

/// `r` describes a run on `d` that stopped at centroids `r.centroids`: the
/// partition is their assignment, and the score is that of the partition.
pub open spec fn describes(d: Seq<Point>, r: KMeansRun) -> bool {
    &&& r.partition@ == assignment(d, r.centroids@)
    &&& r.result.sse == sse(d, r.partition@, r.centroids@)
    &&& r.result.k == populated_count(r.partition@, r.partition@.len() as int)
}

/// Whether a dataset and a centroid count can be clustered.
pub open spec fn valid_input(n: int, k: int) -> bool {
    0 < k <= n
}

proof fn lemma_step_len(d: Seq<Point>, cs: Seq<Point>)
    requires
        d.len() > 0,
        cs.len() > 0,
        d.len() <= MAX_POINTS,
    ensures
        0 < step(d, cs).len() <= cs.len(),
{
    lemma_partition_complete(d, cs);
    let c = nearest(d[0], cs);
    let m = assignment(d, cs)[c];
    assert(m.to_multiset().count(crate::point::PointIdx(0int as usize)) == 1);
    m.to_multiset_ensures();
    assert(m.contains(crate::point::PointIdx(0int as usize)));
    lemma_updated_len(d, assignment(d, cs), c);
}

/// Runs the algorithm from the given initial centroids for at most
/// `max_iterations` iterations.
///
/// Fails with `InvalidInput` when the dataset or the centroid set is empty or
/// there are more centroids than points, and with `NotConverged` when the
/// centroids have not settled within `max_iterations` iterations.
pub fn k_means_from(dataset: &Vec<Point>, initial: &Vec<Point>, max_iterations: usize) -> (r: Result<
    KMeansRun,
    KMeansError,
>)
    requires
        dataset.len() <= MAX_POINTS,
    ensures
        !valid_input(dataset.len() as int, initial.len() as int) <==> r == Err::<KMeansRun, KMeansError>(
            KMeansError::InvalidInput,
        ),
        valid_input(dataset.len() as int, initial.len() as int) ==> (match r {
            Ok(run) => settle(dataset@, initial@, max_iterations as nat) == Some(run.centroids@)
                && describes(dataset@, run),
            Err(e) => e == KMeansError::NotConverged && settle(dataset@, initial@, max_iterations as nat)
                is None,
        }),
{
    if dataset.len() == 0 || initial.len() == 0 || initial.len() > dataset.len() {
        return Err(KMeansError::InvalidInput);
    }
    let mut cur: Vec<Point> = Vec::new();
    let mut i: usize = 0;
    while i < initial.len()
        invariant
            i <= initial.len(),
            cur@ == initial@.take(i as int),
        decreases initial.len() - i,
    {
        cur.push(initial[i]);
        proof {
            assert(initial@.take(i as int + 1) =~= initial@.take(i as int).push(initial@[i as int]));
        }
        i = i + 1;
    }
    assert(initial@.take(initial.len() as int) =~= initial@);
    let mut fuel: usize = max_iterations;
    while fuel > 0
        invariant
            0 < cur.len() <= dataset.len() <= MAX_POINTS,
            valid_input(dataset.len() as int, initial.len() as int),
            settle(dataset@, cur@, fuel as nat) == settle(dataset@, initial@, max_iterations as nat),
        decreases fuel,
    {
        let assoc = match associate_centroids_to_points(dataset, &cur) {
            Ok(a) => a,
            Err(e) => {
                return Err(e);
            },
        };
        proof {
            lemma_assignment_fits(dataset@, cur@);
            lemma_step_len(dataset@, cur@);
        }
        let next = update_centroids(dataset, &assoc);
        if has_converged(&cur, &next) {
            let result = calc_sse(dataset, &assoc, &cur);
            return Ok(KMeansRun { centroids: cur, partition: assoc, result });
        }
        cur = next;
        fuel = fuel - 1;
    }
    Err(KMeansError::NotConverged)
}

/// `k` centroids drawn from the dataset by the given indices.
pub fn centroids_from_indices(dataset: &Vec<Point>, indices: &Vec<usize>) -> (r: Vec<Point>)
    requires
        forall|i: int| 0 <= i < indices.len() ==> #[trigger] indices@[i] < dataset.len(),
    ensures
        r@ == indices@.map_values(|j: usize| dataset@[j as int]),
{
    let mut out: Vec<Point> = Vec::new();
    let mut i: usize = 0;
    while i < indices.len()
        invariant
            i <= indices.len(),
            forall|m: int| 0 <= m < indices.len() ==> #[trigger] indices@[m] < dataset.len(),
            out@ == indices@.take(i as int).map_values(|j: usize| dataset@[j as int]),
        decreases indices.len() - i,
    {
        out.push(dataset[indices[i]]);
        proof {
            assert(indices@.take(i as int + 1) =~= indices@.take(i as int).push(indices@[i as int]));
        }
        i = i + 1;
    }
    assert(indices@.take(indices.len() as int) =~= indices@);
    out
}

/// Picks `k` initial centroids uniformly at random from the dataset, with
/// replacement.
///
/// Fails with `InvalidInput` when the dataset is empty, `k` is zero or `k`
/// exceeds the number of points.
pub fn pick_centroids(dataset: &Vec<Point>, k: usize, rng: &mut rand::rngs::StdRng) -> (r: Result<
    Vec<Point>,
    KMeansError,
>)
    ensures
        !valid_input(dataset.len() as int, k as int) <==> r == Err::<Vec<Point>, KMeansError>(
            KMeansError::InvalidInput,
        ),
        valid_input(dataset.len() as int, k as int) ==> r is Ok,
        r matches Ok(cs) ==> cs.len() == k && forall|i: int|
            0 <= i < k ==> dataset@.contains(#[trigger] cs@[i]),
{
    if dataset.len() == 0 || k == 0 || k > dataset.len() {
        return Err(KMeansError::InvalidInput);
    }
    let mut indices: Vec<usize> = Vec::new();
    let mut i: usize = 0;
    while i < k
        invariant
            i <= k,
            indices.len() == i,
            dataset.len() > 0,
            forall|m: int| 0 <= m < i ==> #[trigger] indices@[m] < dataset.len(),
        decreases k - i,
    {
        let j = random_index(rng, dataset.len());
        indices.push(j);
        i = i + 1;
    }
    let cs = centroids_from_indices(dataset, &indices);
    assert forall|i: int| 0 <= i < k implies dataset@.contains(#[trigger] cs@[i]) by {
        let j = indices@[i] as int;
        assert(cs@[i] == dataset@[j]);
    }
    Ok(cs)
}

/// Picks `k` random initial centroids and runs the algorithm for at most
/// `max_iterations` iterations.
///
/// Fails as `pick_centroids` and `k_means_from` do. A run that succeeds stops
/// at centroids whose update holds the same points.
pub fn k_means(dataset: &Vec<Point>, k: usize, rng: &mut rand::rngs::StdRng, max_iterations: usize) -> (r: Result<
    KMeansRun,
    KMeansError,
>)
    requires
        dataset.len() <= MAX_POINTS,
    ensures
        !valid_input(dataset.len() as int, k as int) <==> r == Err::<KMeansRun, KMeansError>(
            KMeansError::InvalidInput,
        ),
        valid_input(dataset.len() as int, k as int) ==> (match r {
            Ok(run) => describes(dataset@, run) && 0 < run.centroids.len() <= k && run.result.k
                <= run.centroids.len() && same_centroids(run.centroids@, step(dataset@, run.centroids@)),
            Err(e) => e == KMeansError::NotConverged && exists|init: Seq<Point>|
                init.len() == k && (forall|i: int| 0 <= i < k ==> dataset@.contains(#[trigger] init[i]))
                    && settle(dataset@, init, max_iterations as nat) is None,
        }),
{
    let initial = match pick_centroids(dataset, k, rng) {
        Ok(cs) => cs,
        Err(e) => {
            return Err(e);
        },
    };
    let r = k_means_from(dataset, &initial, max_iterations);
    proof {
        lemma_settle_converged(dataset@, initial@, max_iterations as nat);
        if r is Ok {
            let run = r->Ok_0;
            lemma_populated_le(run.partition@, run.partition@.len() as int);
        }
    }
    r
}

/// Wherever iteration settles, the centroids are non-empty and their update
/// holds the same points.
pub proof fn lemma_settle_converged(d: Seq<Point>, cs: Seq<Point>, fuel: nat)
    requires
        0 < cs.len() <= d.len() <= MAX_POINTS,
    ensures
        settle(d, cs, fuel) matches Some(f) ==> 0 < f.len() <= cs.len() && same_centroids(f, step(d, f)),
    decreases fuel,
{
    if fuel > 0 && !same_centroids(cs, step(d, cs)) {
        lemma_step_len(d, cs);
        lemma_settle_converged(d, step(d, cs), (fuel - 1) as nat);
    }
}

/// Runs from the same dataset and the same initial centroids that both
/// settle reach the same centroids, the same partition and the same score.
pub proof fn lemma_run_deterministic(d: Seq<Point>, initial: Seq<Point>, fuel: nat, r1: KMeansRun, r2: KMeansRun)
    requires
        settle(d, initial, fuel) == Some(r1.centroids@),
        settle(d, initial, fuel) == Some(r2.centroids@),
        describes(d, r1),
        describes(d, r2),
    ensures
        r1.centroids@ == r2.centroids@,
        r1.partition@ == r2.partition@,
        r1.result == r2.result,
{
}

/// Points of `s` at distinct positions are distinct.
pub open spec fn pairwise_distinct(s: Seq<Point>) -> bool {
    forall|a: int, b: int| 0 <= a < s.len() && 0 <= b < s.len() && a != b ==> s[a] != s[b]
}

proof fn lemma_nearest_self(cs: Seq<Point>, j: int)
    requires
        0 <= j < cs.len(),
        pairwise_distinct(cs),
    ensures
        nearest(cs[j], cs) == j,
{
    lemma_nearest_upto(cs[j], cs, cs.len() as int);
    assert(cs.take(cs.len() as int) =~= cs);
    let r = nearest(cs[j], cs);
    assert(dist2(cs[j], cs[r]) <= dist2(cs[j], cs[j]));
    let dx = cs[j].x - cs[r].x;
    let dy = cs[j].y - cs[r].y;
    assert(dx * dx >= 0 && dy * dy >= 0) by (nonlinear_arith);
    assert(dx == 0 && dy == 0) by (nonlinear_arith)
        requires
            dx * dx + dy * dy <= 0,
    ;
    assert(cs[r] == cs[j]);
}

proof fn lemma_singleton_members(ls: Seq<int>, c: int, at: int, n: int)
    requires
        0 <= at < ls.len() <= usize::MAX,
        0 <= n <= ls.len(),
        forall|i: int| 0 <= i < ls.len() ==> (#[trigger] ls[i] == c <==> i == at),
    ensures
        members_upto(ls, c, n) == if at < n {
            seq![PointIdx(at as usize)]
        } else {
            Seq::<PointIdx>::empty()
        },
    decreases n,
{
    if n > 0 {
        lemma_singleton_members(ls, c, at, n - 1);
        if at == n - 1 {
            assert(seq![PointIdx(at as usize)] =~= Seq::<PointIdx>::empty().push(PointIdx(at as usize)));
        }
    }
}

proof fn lemma_singleton_updated(d: Seq<Point>, p: Seq<Seq<PointIdx>>, cs: Seq<Point>, n: int)
    requires
        0 <= n <= p.len() == cs.len(),
        forall|c: int|
            0 <= c < p.len() ==> (#[trigger] p[c]).len() == 1 && 0 <= p[c][0].0 < d.len() && d[p[c][0].0 as int]
                == cs[c],
    ensures
        updated_upto(d, p, n) == cs.take(n),
    decreases n,
{
    if n > 0 {
        lemma_singleton_updated(d, p, cs, n - 1);
        let s = cluster_points(d, p[n - 1]);
        let q = cs[n - 1];
        assert(s =~= seq![q]);
        assert(s.drop_last() =~= Seq::<Point>::empty());
        assert(s.last() == q);
        assert(sum_x(s) == sum_x(s.drop_last()) + q.x);
        assert(sum_y(s) == sum_y(s.drop_last()) + q.y);
        assert(sum_x(s) == q.x && sum_y(s) == q.y);
        lemma_fundamental_div_mod_converse(2 * q.x + 1, 2, q.x as int, 1);
        lemma_fundamental_div_mod_converse(2 * q.y + 1, 2, q.y as int, 1);
        assert(mean(s) == q);
        assert(cs.take(n) =~= cs.take(n - 1).push(q));
    }
}

proof fn lemma_singleton_sse(d: Seq<Point>, p: Seq<Seq<PointIdx>>, cs: Seq<Point>, n: int)
    requires
        0 <= n <= p.len() == cs.len(),
        forall|c: int|
            0 <= c < p.len() ==> (#[trigger] p[c]).len() == 1 && 0 <= p[c][0].0 < d.len() && d[p[c][0].0 as int]
                == cs[c],
    ensures
        sse_upto(d, p, cs, n) == 0,
    decreases n,
{
    if n > 0 {
        lemma_singleton_sse(d, p, cs, n - 1);
        let m = p[n - 1];
        assert(m.drop_last() =~= Seq::<PointIdx>::empty());
        assert(m.last() == m[0]);
        assert(cluster_sse(d, m, cs[n - 1]) == cluster_sse(d, m.drop_last(), cs[n - 1]) + dist2(
            cs[n - 1],
            cs[n - 1],
        ));
    }
}

/// With as many centroids as points, started at the points themselves in any
/// order and the points pairwise distinct, every point forms a cluster of its
/// own, whose centroid is that point: the first iteration already settles, on
/// the initial centroids, with a sum of squared errors of zero.
pub proof fn lemma_one_cluster_per_point(d: Seq<Point>, cs: Seq<Point>, fuel: nat)
    requires
        0 < d.len() <= MAX_POINTS,
        fuel > 0,
        pairwise_distinct(d),
        cs.to_multiset() == d.to_multiset(),
    ensures
        forall|c: int|
            0 <= c < cs.len() ==> (#[trigger] assignment(d, cs)[c]).len() == 1 && d[assignment(d, cs)[c][0].0 as int]
                == cs[c],
        settle(d, cs, fuel) == Some(cs),
        sse(d, assignment(d, cs), cs) == 0,
{
    broadcast use vstd::multiset::group_multiset_axioms;

    d.to_multiset_ensures();
    cs.to_multiset_ensures();
    assert(cs.len() == d.len());
    assert(pairwise_distinct(cs)) by {
        assert forall|a: int, b: int| 0 <= a < cs.len() && 0 <= b < cs.len() && a != b implies cs[a] != cs[b] by {
            if cs[a] == cs[b] {
                let x = cs[a];
                assert(cs.remove(a).contains(x)) by {
                    let k = if b < a { b } else { b - 1 };
                    assert(cs.remove(a)[k] == x);
                }
                cs.remove(a).to_multiset_ensures();
                assert(cs.remove(a).to_multiset() == cs.to_multiset().remove(x));
                assert(cs.remove(a).to_multiset().count(x) > 0);
                assert(cs.to_multiset().count(x) >= 2);
                assert(d.contains(x));
                let i = choose|i: int| 0 <= i < d.len() && d[i] == x;
                assert(d.remove(i).to_multiset() == d.to_multiset().remove(x));
                d.remove(i).to_multiset_ensures();
                assert(d.remove(i).to_multiset().count(x) > 0);
                assert(d.remove(i).contains(x));
                let k = choose|k: int| 0 <= k < d.remove(i).len() && d.remove(i)[k] == x;
                let i2 = if k < i { k } else { k + 1 };
                assert(d[i2] == x);
            }
        }
    }
    let ls = labels(d, cs);
    let p = assignment(d, cs);
    assert forall|c: int| 0 <= c < p.len() implies (#[trigger] p[c]).len() == 1 && 0 <= p[c][0].0 < d.len()
        && d[p[c][0].0 as int] == cs[c] by {
        assert(cs.contains(cs[c]));
        assert(d.to_multiset().count(cs[c]) > 0);
        assert(d.contains(cs[c]));
        let at = choose|i: int| 0 <= i < d.len() && d[i] == cs[c];
        assert forall|i: int| 0 <= i < ls.len() implies (#[trigger] ls[i] == c <==> i == at) by {
            assert(d.contains(d[i]));
            assert(cs.to_multiset().count(d[i]) > 0);
            assert(cs.contains(d[i]));
            let j = choose|j: int| 0 <= j < cs.len() && cs[j] == d[i];
            lemma_nearest_self(cs, j);
        }
        lemma_singleton_members(ls, c, at, d.len() as int);
    }
    lemma_singleton_updated(d, p, cs, cs.len() as int);
    assert(cs.take(cs.len() as int) =~= cs);
    lemma_singleton_sse(d, p, cs, cs.len() as int);
}

} // verus!
