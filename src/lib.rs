//! Lloyd's k-means clustering over points of the integer grid, with exact
//! assignment, centroid update, convergence test and sum of squared errors.
//!
//! Coordinates are fixed-point values: a caller with real-valued data scales
//! it to the grid before clustering. Centroids are cluster means rounded to the
//! nearest grid point.

mod point;
mod assign;
mod update;
mod converge;
mod quality;
mod kmeans;

pub use point::{Point, PointIdx, CentroidIdx, KMeansError, MAX_POINTS};





pub use assign::{Partition, associate_centroids_to_points, nearest_centroid, next_cluster};
pub use update::{calculate_average_point, update_centroids};
pub use converge::{sort_point_vec, has_converged};
pub use quality::{KMeansResult, calc_sse};
pub use kmeans::{KMeansRun, pick_centroids, centroids_from_indices, k_means_from, k_means};
