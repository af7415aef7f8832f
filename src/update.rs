use vstd::prelude::*;
use vstd::arithmetic::div_mod::{lemma_fundamental_div_mod, lemma_fundamental_div_mod_converse};
use crate::point::{Point, PointIdx, MAX_POINTS, dist2};
use crate::assign::Partition;

verus! {

/// Sum of the x coordinates.
pub open spec fn sum_x(s: Seq<Point>) -> int
    decreases s.len(),
{
    if s.len() == 0 {
        0
    } else {
        sum_x(s.drop_last()) + s.last().x
    }
}

/// Sum of the y coordinates.
pub open spec fn sum_y(s: Seq<Point>) -> int
    decreases s.len(),
{
    if s.len() == 0 {
        0
    } else {
        sum_y(s.drop_last()) + s.last().y
    }
}

/// `t / n` rounded to the nearest integer, halves rounded up.
pub open spec fn round_div(t: int, n: int) -> int {
    (2 * t + n) / (2 * n)
}

/// The mean of a non-empty sequence of points, each coordinate rounded to
/// the nearest grid line (halves up): of all grid points, the one with the
/// least sum of squared distances to the sequence.
pub open spec fn mean(s: Seq<Point>) -> Point {
    Point { x: round_div(sum_x(s), s.len() as int) as i32, y: round_div(sum_y(s), s.len() as int) as i32 }
}

/// The points of `d` that a cluster names.
pub open spec fn cluster_points(d: Seq<Point>, m: Seq<PointIdx>) -> Seq<Point> {
    m.map_values(|i: PointIdx| d[i.0 as int])
}

/// The means of the non-empty clusters among the first `c`, by ascending
/// centroid index.
pub open spec fn updated_upto(d: Seq<Point>, p: Seq<Seq<PointIdx>>, c: int) -> Seq<Point>
    decreases c,
{
    if c <= 0 {
        seq![]
    } else if p[c - 1].len() > 0 {
        updated_upto(d, p, c - 1).push(mean(cluster_points(d, p[c - 1])))
    } else {
        updated_upto(d, p, c - 1)
    }
}

/// The centroids that the update step makes of partition `p`: one mean for
/// each non-empty cluster; empty clusters are dropped.
pub open spec fn updated(d: Seq<Point>, p: Seq<Seq<PointIdx>>) -> Seq<Point> {
    updated_upto(d, p, p.len() as int)
}

/// A partition whose members are points of `d`, each cluster of a size the
/// library accepts.
pub open spec fn partition_fits(d: Seq<Point>, p: Seq<Seq<PointIdx>>) -> bool {
    &&& forall|c: int| 0 <= c < p.len() ==> #[trigger] p[c].len() <= MAX_POINTS
    &&& forall|c: int, j: int| 0 <= c < p.len() && 0 <= j < p[c].len() ==> (#[trigger] p[c][j]).0 < d.len()
}

proof fn lemma_sum_bounds(s: Seq<Point>)
    ensures
        s.len() * (i32::MIN as int) <= sum_x(s) <= s.len() * (i32::MAX as int),
        s.len() * (i32::MIN as int) <= sum_y(s) <= s.len() * (i32::MAX as int),
    decreases s.len(),
{
    if s.len() > 0 {
        lemma_sum_bounds(s.drop_last());
    }
}

proof fn lemma_floor_div_bounds(t: int, n: int)
    requires
        n > 0,
        n * (i32::MIN as int) <= t < n * (i32::MAX as int + 1),
    ensures
        i32::MIN <= t / n <= i32::MAX,
{
    lemma_fundamental_div_mod(t, n);
    let q = t / n;
    let r = t % n;
    assert(t == n * q + r);
    assert(0 <= r < n);
    assert(i32::MIN <= q <= i32::MAX) by (nonlinear_arith)
        requires
            n > 0,
            t == n * q + r,
            0 <= r < n,
            n * (i32::MIN as int) <= t < n * (i32::MAX as int + 1),
    ;
}

/// `t / n` rounded down.
fn floor_div(t: i64, n: u64) -> (r: i32)
    requires
        n > 0,
        n * (i32::MIN as int) <= t < n * (i32::MAX as int + 1),
    ensures
        r == (t as int) / (n as int),
{
    proof {
        lemma_floor_div_bounds(t as int, n as int);
    }
    if t >= 0 {
        ((t as u64) / n) as i32
    } else {
        let u: u64 = (-(t + 1)) as u64;
        let q: u64 = u / n;
        proof {
            lemma_fundamental_div_mod(u as int, n as int);
            let rr = (u as int) % (n as int);
            assert(t == (-(q as int) - 1) * n + (n - 1 - rr)) by (nonlinear_arith)
                requires
                    u == -(t + 1),
                    u == n * q + rr,
            ;
            lemma_fundamental_div_mod_converse(t as int, n as int, -(q as int) - 1, n - 1 - rr);
        }
        (-(q as i64) - 1) as i32
    }
}

/// `t / n` rounded to the nearest integer, for a sum `t` of `n` coordinates.
fn round_mean(t: i64, n: u64) -> (r: i32)
    requires
        0 < n <= MAX_POINTS,
        n * (i32::MIN as int) <= t <= n * (i32::MAX as int),
    ensures
        r == round_div(t as int, n as int),
{
    assert(n * (i32::MIN as int) <= t <= n * (i32::MAX as int) ==> 2 * n * (i32::MIN as int) <= 2 * t + n < 2 * n * (
    i32::MAX as int + 1)) by (nonlinear_arith)
        requires n > 0;
    assert(n * 0x8000_0000int <= 0x8000_0000int * 0x8000_0000int) by (nonlinear_arith)
        requires n <= 0x8000_0000int;
    floor_div(2 * t + n as i64, 2 * n)
}

/// The mean of a non-empty list of points, each coordinate rounded to the
/// nearest grid line (halves up).
pub fn calculate_average_point(points: &Vec<Point>) -> (r: Point)
    requires
        0 < points.len() <= MAX_POINTS,
    ensures
        r == mean(points@),
{
    let mut x: i64 = 0;
    let mut y: i64 = 0;
    let mut i: usize = 0;
    while i < points.len()
        invariant
            i <= points.len() <= MAX_POINTS,
            x == sum_x(points@.take(i as int)),
            y == sum_y(points@.take(i as int)),
        decreases points.len() - i,
    {
        proof {
            lemma_sum_bounds(points@.take(i as int));
            assert(points@.take(i as int + 1).drop_last() =~= points@.take(i as int));
        }
        x = x + points[i].x as i64;
        y = y + points[i].y as i64;
        i = i + 1;
    }
    proof {
        assert(points@.take(points.len() as int) =~= points@);
        lemma_sum_bounds(points@);
    }
    let n: u64 = points.len() as u64;
    Point { x: round_mean(x, n), y: round_mean(y, n) }
}

/// New centroids from a partition: the mean of each non-empty cluster, in
/// ascending order of centroid index. Empty clusters are dropped.
pub fn update_centroids(dataset: &Vec<Point>, assoc: &Partition) -> (r: Vec<Point>)
    requires
        partition_fits(dataset@, assoc@),
    ensures
        r@ == updated(dataset@, assoc@),
{
    let ghost p = assoc@;
    let mut out: Vec<Point> = Vec::new();
    let mut c: usize = 0;
    while c < assoc.clusters.len()
        invariant
            c <= assoc.clusters.len(),
            p == assoc@,
            partition_fits(dataset@, p),
            out@ == updated_upto(dataset@, p, c as int),
        decreases assoc.clusters.len() - c,
    {
        let members = &assoc.clusters[c];
        assert(members@ == p[c as int]);
        if members.len() > 0 {
            let mut pts: Vec<Point> = Vec::new();
            let mut j: usize = 0;
            while j < members.len()
                invariant
                    j <= members.len(),
                    members@ == p[c as int],
                    partition_fits(dataset@, p),
                    c < p.len(),
                    pts@ == cluster_points(dataset@, members@.take(j as int)),
                decreases members.len() - j,
            {
                assert(members@[j as int] == p[c as int][j as int]);
                pts.push(dataset[members[j].0]);
                proof {
                    assert(members@.take(j as int + 1) =~= members@.take(j as int).push(members@[j as int]));
                }
                j = j + 1;
            }
            assert(members@.take(members.len() as int) =~= members@);
            out.push(calculate_average_point(&pts));
        }
        c = c + 1;
    }
    out
}

/// The update step makes at most one centroid per cluster, and at least one
/// when cluster `c` is populated.
pub proof fn lemma_updated_len(d: Seq<Point>, p: Seq<Seq<PointIdx>>, c: int)
    requires
        0 <= c < p.len(),
        p[c].len() > 0,
    ensures
        0 < updated(d, p).len() <= p.len(),
{
    lemma_updated_upto_len(d, p, c, p.len() as int);
}

proof fn lemma_updated_upto_len(d: Seq<Point>, p: Seq<Seq<PointIdx>>, c: int, n: int)
    requires
        0 <= c < p.len(),
        p[c].len() > 0,
        0 <= n <= p.len(),
    ensures
        updated_upto(d, p, n).len() <= n,
        c < n ==> updated_upto(d, p, n).len() > 0,
    decreases n,
{
    if n > 0 {
        lemma_updated_upto_len(d, p, c, n - 1);
    }
}

/// Sum of squared distances from the points of `s` to `c`.
pub open spec fn sq_err(s: Seq<Point>, c: Point) -> int
    decreases s.len(),
{
    if s.len() == 0 {
        0
    } else {
        sq_err(s.drop_last(), c) + dist2(s.last(), c)
    }
}

spec fn sum_sq(s: Seq<Point>) -> int
    decreases s.len(),
{
    if s.len() == 0 {
        0
    } else {
        sum_sq(s.drop_last()) + s.last().x * s.last().x + s.last().y * s.last().y
    }
}

proof fn lemma_sq_err_expand(s: Seq<Point>, c: Point)
    ensures
        sq_err(s, c) == sum_sq(s) - 2 * c.x * sum_x(s) - 2 * c.y * sum_y(s) + s.len() * (c.x * c.x + c.y
            * c.y),
    decreases s.len(),
{
    if s.len() > 0 {
        lemma_sq_err_expand(s.drop_last(), c);
        let p = s.last();
        let a = sum_x(s.drop_last());
        let b = sum_y(s.drop_last());
        let m = s.len() - 1;
        assert(dist2(p, c) == p.x * p.x + p.y * p.y - 2 * c.x * p.x - 2 * c.y * p.y + (c.x * c.x + c.y * c.y))
            by (nonlinear_arith);
        assert(2 * c.x * (a + p.x) == 2 * c.x * a + 2 * c.x * p.x) by (nonlinear_arith);
        assert(2 * c.y * (b + p.y) == 2 * c.y * b + 2 * c.y * p.y) by (nonlinear_arith);
        assert((m + 1) * (c.x * c.x + c.y * c.y) == m * (c.x * c.x + c.y * c.y) + (c.x * c.x + c.y * c.y))
            by (nonlinear_arith);
    }
}

/// The nearest-integer quotient minimises `n*c*c - 2*t*c` over integers `c`.
proof fn lemma_round_div_minimises(t: int, n: int, q: int)
    requires
        n > 0,
    ensures
        n * round_div(t, n) * round_div(t, n) - 2 * t * round_div(t, n) <= n * q * q - 2 * t * q,
{
    let c = round_div(t, n);
    lemma_fundamental_div_mod(2 * t + n, 2 * n);
    let r = (2 * t + n) % (2 * n);
    assert(2 * t + n == 2 * n * c + r && 0 <= r < 2 * n);
    assert(n * q * q - 2 * t * q - (n * c * c - 2 * t * c) == (q - c) * (n * (q + c) - 2 * t)) by (nonlinear_arith);
    if q > c {
        assert((q - c) * (n * (q + c) - 2 * t) >= 0) by (nonlinear_arith)
            requires
                q >= c + 1,
                n > 0,
                2 * t + n == 2 * n * c + r,
                r < 2 * n,
        ;
    } else if q < c {
        assert((q - c) * (n * (q + c) - 2 * t) >= 0) by (nonlinear_arith)
            requires
                q <= c - 1,
                n > 0,
                2 * t + n == 2 * n * c + r,
                0 <= r,
        ;
    }
}

/// The rounded mean of a non-empty sequence has the least sum of squared
/// distances to it among all grid points: the update step never raises a
/// cluster's squared error.
pub proof fn lemma_mean_minimises(s: Seq<Point>, q: Point)
    requires
        0 < s.len(),
    ensures
        sq_err(s, mean(s)) <= sq_err(s, q),
{
    let n = s.len() as int;
    lemma_sum_bounds(s);
    lemma_floor_div_bounds(2 * sum_x(s) + n, 2 * n);
    lemma_floor_div_bounds(2 * sum_y(s) + n, 2 * n);
    assert(n * (i32::MIN as int) <= sum_x(s) <= n * (i32::MAX as int) ==> 2 * n * (i32::MIN as int) <= 2 * sum_x(s) + n
        < 2 * n * (i32::MAX as int + 1)) by (nonlinear_arith)
        requires n > 0;
    assert(n * (i32::MIN as int) <= sum_y(s) <= n * (i32::MAX as int) ==> 2 * n * (i32::MIN as int) <= 2 * sum_y(s) + n
        < 2 * n * (i32::MAX as int + 1)) by (nonlinear_arith)
        requires n > 0;
    let m = mean(s);
    assert(m.x == round_div(sum_x(s), n));
    assert(m.y == round_div(sum_y(s), n));
    lemma_sq_err_expand(s, m);
    lemma_sq_err_expand(s, q);
    lemma_round_div_minimises(sum_x(s), n, q.x as int);
    lemma_round_div_minimises(sum_y(s), n, q.y as int);
    assert(n * (m.x * m.x + m.y * m.y) == n * m.x * m.x + n * m.y * m.y) by (nonlinear_arith);
    assert(n * (q.x * q.x + q.y * q.y) == n * q.x * q.x + n * q.y * q.y) by (nonlinear_arith);
    assert(2 * m.x * sum_x(s) == 2 * sum_x(s) * m.x) by (nonlinear_arith);
    assert(2 * m.y * sum_y(s) == 2 * sum_y(s) * m.y) by (nonlinear_arith);
    assert(2 * q.x * sum_x(s) == 2 * sum_x(s) * q.x) by (nonlinear_arith);
    assert(2 * q.y * sum_y(s) == 2 * sum_y(s) * q.y) by (nonlinear_arith);
}

} // verus!
