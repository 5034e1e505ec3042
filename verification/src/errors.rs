use vstd::prelude::*;

verus! {

/// The failures that the clustering engine and the validity indices can
/// report. Every function states exactly on which inputs each variant is
/// returned.
#[derive(Clone, Copy, Debug, PartialEq, Eq, Structural)]
pub enum ClusterError {
    /// The rows handed to `Dataset::new` do not all share one dimension.
    DimensionMismatch,
    /// Farthest-point seeding ran out of candidates: `k` exceeds the number
    /// of distinct values among the dataset vectors and the dataset mean.
    Initialization,
    /// A validity index was asked for fewer than two clusters.
    InsufficientClusters,
    /// A zero denominator: every cluster diameter is zero (Dunn), or two
    /// cluster centroids coincide (Davis-Bouldin).
    DegenerateCluster,
    /// The assign/update iteration did not reach a fixed point within the
    /// iteration cap.
    NonConvergence,
    /// A dataset outside the machine limits: too many rows, too many
    /// components, or a component too large in magnitude.
    ValueOutOfRange,
    /// An exact rational intermediate of the Davis-Bouldin index no longer
    /// fits the machine word.
    NumericOverflow,
}

} // verus!
