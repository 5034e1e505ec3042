//! Deterministic k-means clustering over integer-valued vectors, with the
//! Dunn and Davis-Bouldin cluster-validity indices.
//!
//! Coordinates are exact integers and centroids are exact rationals (a vector
//! of component sums together with the member count), so every distance
//! comparison, the farthest-point seeding, the assign/update iteration and
//! both validity indices are computed exactly and verified against exact
//! arithmetic specifications.

pub mod errors;
pub mod dataset;
pub mod cluster;
pub mod init;
pub mod indices;
pub mod laws;

pub use errors::ClusterError;
pub use dataset::{Centroid, Dataset, distance, MAX_COORD, MAX_DIM, MAX_POINTS};
pub use cluster::{assign_all, deterministic_kmeans, partitions_equal, recompute_centroids,
    MAX_ITERS};
pub use init::span_clusters;
pub use indices::{davis_bouldin_index, dunn_index, Ratio};
