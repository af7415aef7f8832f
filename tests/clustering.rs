use k_mears::{
    associate_centroids_to_points, calc_sse, calculate_average_point, centroids_from_indices,
    has_converged, k_means, k_means_from, nearest_centroid, next_cluster, pick_centroids,
    sort_point_vec, update_centroids, CentroidIdx, KMeansError, Partition, Point, PointIdx,
};
use rand::rngs::StdRng;
use rand::SeedableRng;

fn pts(v: &[(i32, i32)]) -> Vec<Point> {
    v.iter().map(|&(x, y)| Point::new(x, y)).collect()
}

fn blobs() -> Vec<Point> {
    pts(&[
        (1, 2),
        (2, 1),
        (3, 2),
        (2, 3),
        (17, 18),
        (18, 17),
        (19, 18),
        (18, 19),
    ])
}

#[test]
fn mean_of_known_cluster() {
    let p = calculate_average_point(&pts(&[(0, 0), (2, 0), (1, 3)]));
    assert_eq!(p, Point::new(1, 1));
}

#[test]
fn mean_rounds_to_nearest() {
    let p = calculate_average_point(&pts(&[(0, 0), (1, 0), (1, 0)]));
    assert_eq!(p, Point::new(1, 0));
    let q = calculate_average_point(&pts(&[(-1, 0), (0, 1)]));
    assert_eq!(q, Point::new(0, 1));
    let r = calculate_average_point(&pts(&[(1, 3), (2, 4)]));
    assert_eq!(r, Point::new(2, 4));
    let s = calculate_average_point(&pts(&[(-3, -3), (-2, -2), (-2, -2)]));
    assert_eq!(s, Point::new(-2, -2));
}

#[test]
fn update_does_not_raise_error() {
    let d = pts(&[(0, 0), (1, 0), (1, 0)]);
    let init = pts(&[(1, 0)]);
    let part = associate_centroids_to_points(&d, &init).unwrap();
    assert_eq!(calc_sse(&d, &part, &init).sse, 1);
    let run = k_means_from(&d, &init, 5).unwrap();
    assert_eq!(run.centroids, init);
    assert_eq!(run.result.sse, 1);
}

#[test]
fn update_of_known_cluster() {
    let d = pts(&[(0, 0), (2, 0), (1, 3), (10, 10)]);
    let part = Partition {
        clusters: vec![
            vec![],
            vec![PointIdx(0), PointIdx(1), PointIdx(2)],
            vec![PointIdx(3)],
        ],
    };
    let c = update_centroids(&d, &part);
    assert_eq!(c, pts(&[(1, 1), (10, 10)]));
}

#[test]
fn partition_covers_every_point_once() {
    let d = pts(&[(0, 0), (9, 9), (1, 0), (8, 9), (4, 4)]);
    let cs = pts(&[(0, 0), (9, 9)]);
    let part = associate_centroids_to_points(&d, &cs).unwrap();
    assert_eq!(part.clusters.len(), 2);
    assert_eq!(part.clusters[0], vec![PointIdx(0), PointIdx(2), PointIdx(4)]);
    assert_eq!(part.clusters[1], vec![PointIdx(1), PointIdx(3)]);
    let mut seen = vec![0usize; d.len()];
    for cl in &part.clusters {
        for m in cl {
            seen[m.0] += 1;
        }
    }
    assert!(seen.iter().all(|&n| n == 1));
}

#[test]
fn assignment_of_empty_input_fails() {
    let cs = pts(&[(0, 0)]);
    assert_eq!(
        associate_centroids_to_points(&vec![], &cs).err(),
        Some(KMeansError::InvalidInput)
    );
    assert_eq!(
        associate_centroids_to_points(&cs, &vec![]).err(),
        Some(KMeansError::InvalidInput)
    );
}

#[test]
fn nearest_prefers_lowest_index_on_tie() {
    let cs = pts(&[(2, 0), (-2, 0), (0, 2)]);
    assert_eq!(nearest_centroid(&Point::new(0, 0), &cs), 0);
    assert_eq!(nearest_centroid(&Point::new(0, 3), &cs), 2);
    assert_eq!(nearest_centroid(&Point::new(-1, 0), &cs), 1);
}

#[test]
fn next_cluster_skips_own_centroid() {
    let cs = pts(&[(0, 0), (10, 0), (3, 0), (-3, 0)]);
    assert_eq!(next_cluster(CentroidIdx(0), &cs), CentroidIdx(2));
    assert_eq!(next_cluster(CentroidIdx(2), &cs), CentroidIdx(0));
    assert_eq!(next_cluster(CentroidIdx(1), &cs), CentroidIdx(2));
}

#[test]
fn canonical_order_sorts_by_x_then_y() {
    let s = sort_point_vec(&pts(&[(5, 5), (1, 7), (1, 1), (3, 0)]));
    assert_eq!(s, pts(&[(1, 1), (1, 7), (3, 0), (5, 5)]));
}

#[test]
fn convergence_ignores_order() {
    let a = pts(&[(1, 1), (5, 5)]);
    let b = pts(&[(5, 5), (1, 1)]);
    assert!(has_converged(&a, &b));
    assert!(has_converged(&b, &a));
}

#[test]
fn convergence_is_symmetric() {
    let a = pts(&[(1, 1), (5, 5), (1, 1)]);
    let b = pts(&[(5, 5), (1, 1), (5, 5)]);
    assert_eq!(has_converged(&a, &b), has_converged(&b, &a));
    assert!(!has_converged(&a, &b));
}

#[test]
fn convergence_needs_equal_sizes() {
    let a = pts(&[(1, 1), (5, 5)]);
    let b = pts(&[(1, 1)]);
    assert!(!has_converged(&a, &b));
    assert!(!has_converged(&b, &a));
}

#[test]
fn sse_of_partition() {
    let d = pts(&[(0, 0), (2, 0), (10, 10)]);
    let cs = pts(&[(1, 0), (10, 12)]);
    let part = associate_centroids_to_points(&d, &cs).unwrap();
    let r = calc_sse(&d, &part, &cs);
    assert_eq!(r.sse, 1 + 1 + 4);
    assert_eq!(r.k, 2);
}

#[test]
fn sse_counts_only_populated_clusters() {
    let d = pts(&[(0, 0), (2, 0)]);
    let cs = pts(&[(1, 0), (100, 100)]);
    let part = associate_centroids_to_points(&d, &cs).unwrap();
    let r = calc_sse(&d, &part, &cs);
    assert_eq!(r.sse, 2);
    assert_eq!(r.k, 1);
    assert_eq!(update_centroids(&d, &part), pts(&[(1, 0)]));
}

#[test]
fn two_blobs_end_to_end() {
    let d = blobs();
    let init = centroids_from_indices(&d, &vec![0, 4]);
    let run = k_means_from(&d, &init, 10).unwrap();
    let mut c = run.centroids.clone();
    c = sort_point_vec(&c);
    assert_eq!(c, pts(&[(2, 2), (18, 18)]));
    assert_eq!(run.result.sse, 8);
    assert_eq!(run.result.k, 2);
    assert_eq!(run.partition.clusters[0], vec![PointIdx(0), PointIdx(1), PointIdx(2), PointIdx(3)]);
}

#[test]
fn same_start_same_sse() {
    let d = blobs();
    let init = centroids_from_indices(&d, &vec![1, 2]);
    let a = k_means_from(&d, &init, 50).unwrap();
    let b = k_means_from(&d, &init, 50).unwrap();
    assert_eq!(a.result, b.result);
    assert_eq!(a.centroids, b.centroids);
}

#[test]
fn one_cluster_per_point() {
    let d = pts(&[(0, 0), (4, 1), (7, 3), (2, 9)]);
    let run = k_means_from(&d, &d, 5).unwrap();
    assert_eq!(run.result.sse, 0);
    assert_eq!(run.result.k, 4);
    assert_eq!(run.centroids, d);
}

#[test]
fn one_cluster_per_point_in_any_order() {
    let d = pts(&[(0, 0), (4, 1), (7, 3), (2, 9)]);
    let init = pts(&[(7, 3), (0, 0), (2, 9), (4, 1)]);
    let run = k_means_from(&d, &init, 1).unwrap();
    assert_eq!(run.result.sse, 0);
    assert_eq!(run.result.k, 4);
    assert_eq!(run.centroids, init);
    assert_eq!(run.partition.clusters[0], vec![PointIdx(2)]);
}

#[test]
fn picking_from_equal_points() {
    let d = pts(&[(3, 3), (3, 3)]);
    let mut rng = StdRng::seed_from_u64(11);
    assert_eq!(pick_centroids(&d, 2, &mut rng).unwrap(), d);
}

#[test]
fn run_rejects_invalid_input() {
    let d = blobs();
    assert_eq!(k_means_from(&vec![], &d, 5).err(), Some(KMeansError::InvalidInput));
    assert_eq!(k_means_from(&d, &vec![], 5).err(), Some(KMeansError::InvalidInput));
    let many = pts(&[(0, 0); 9]);
    assert_eq!(k_means_from(&d, &many, 5).err(), Some(KMeansError::InvalidInput));
}

#[test]
fn run_out_of_iterations() {
    let d = blobs();
    let init = centroids_from_indices(&d, &vec![0, 1]);
    assert_eq!(k_means_from(&d, &init, 1).err(), Some(KMeansError::NotConverged));
    assert_eq!(k_means_from(&d, &init, 0).err(), Some(KMeansError::NotConverged));
}

#[test]
fn picked_centroids_come_from_dataset() {
    let d = blobs();
    let mut rng = StdRng::seed_from_u64(7);
    let cs = pick_centroids(&d, 5, &mut rng).unwrap();
    assert_eq!(cs.len(), 5);
    assert!(cs.iter().all(|c| d.contains(c)));
}

#[test]
fn picking_rejects_invalid_counts() {
    let d = blobs();
    let mut rng = StdRng::seed_from_u64(1);
    assert_eq!(pick_centroids(&d, 0, &mut rng).err(), Some(KMeansError::InvalidInput));
    assert_eq!(pick_centroids(&d, 9, &mut rng).err(), Some(KMeansError::InvalidInput));
    assert_eq!(pick_centroids(&vec![], 1, &mut rng).err(), Some(KMeansError::InvalidInput));
}

#[test]
fn random_run_settles() {
    let d = blobs();
    let mut rng = StdRng::seed_from_u64(3);
    let run = k_means(&d, 2, &mut rng, 100).unwrap();
    assert!(run.result.k >= 1 && run.result.k <= 2);
    let again = associate_centroids_to_points(&d, &run.centroids).unwrap();
    assert!(has_converged(&run.centroids, &update_centroids(&d, &again)));
    assert_eq!(k_means(&d, 0, &mut rng, 100).err(), Some(KMeansError::InvalidInput));
}
