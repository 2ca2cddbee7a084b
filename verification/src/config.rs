use vstd::prelude::*;

use crate::error::RavenError;

verus! {

/// `min(max(4 * num_clusters, cap), coreset_size - 1)` raised to at least 2,
/// with the products and differences saturating.
pub open spec fn spec_default_sampling_seeds(num_clusters: int, coreset_size: int) -> int {
    let scaled = if num_clusters * 4 > usize::MAX {
        usize::MAX as int
    } else {
        num_clusters * 4
    };
    let cap = if coreset_size >= 1 {
        coreset_size - 1
    } else {
        0
    };
    let bounded = if scaled < cap {
        scaled
    } else {
        cap
    };
    if bounded > 2 {
        bounded
    } else {
        2
    }
}

/// Default number of repair seeds for `num_clusters` clusters and coresets
/// of `coreset_size` points: four per cluster, fewer than the coreset size,
/// and at least two.
pub fn default_sampling_seeds(num_clusters: usize, coreset_size: usize) -> (res: usize)
    ensures
        res == spec_default_sampling_seeds(num_clusters as int, coreset_size as int),
{
    let scaled: usize = match num_clusters.checked_mul(4) {
        Some(v) => v,
        None => usize::MAX,
    };
    let cap: usize = if coreset_size >= 1 {
        coreset_size - 1
    } else {
        0
    };
    let bounded = if scaled < cap {
        scaled
    } else {
        cap
    };
    if bounded > 2 {
        bounded
    } else {
        2
    }
}

/// The first setting that a configuration gets wrong, in the order in which
/// they are checked.
#[derive(Debug, Clone, Copy, PartialEq, Eq, Structural)]
pub enum ConfigViolation {
    ZeroClusters,
    InvalidSigma,
    ZeroCoresetSize,
    ZeroSamplingSeeds,
    TooManySamplingSeeds,
    ZeroTrials,
    ZeroNodeCapacity,
    ZeroExpectedEdgesPerNode,
    ZeroDegreeRebuildThreshold,
}

/// Checks the settings of an index configuration in order: a non-zero
/// cluster count, a positive finite smoothing scale (`sigma_valid`), a
/// non-zero coreset size, a non-zero seed count below the coreset size, and
/// non-zero trial count and capacity hints. Reports the first failure.
pub fn validate_settings(
    num_clusters: usize,
    sigma_valid: bool,
    coreset_size: usize,
    sampling_seeds: usize,
    num_trials: usize,
    node_capacity: usize,
    expected_edges_per_node: usize,
    degree_rebuild_threshold: usize,
) -> (res: Result<(), ConfigViolation>)
    ensures
        res == if num_clusters == 0 {
            Err(ConfigViolation::ZeroClusters)
        } else if !sigma_valid {
            Err(ConfigViolation::InvalidSigma)
        } else if coreset_size == 0 {
            Err(ConfigViolation::ZeroCoresetSize)
        } else if sampling_seeds == 0 {
            Err(ConfigViolation::ZeroSamplingSeeds)
        } else if sampling_seeds >= coreset_size {
            Err(ConfigViolation::TooManySamplingSeeds)
        } else if num_trials == 0 {
            Err(ConfigViolation::ZeroTrials)
        } else if node_capacity == 0 {
            Err(ConfigViolation::ZeroNodeCapacity)
        } else if expected_edges_per_node == 0 {
            Err(ConfigViolation::ZeroExpectedEdgesPerNode)
        } else if degree_rebuild_threshold == 0 {
            Err(ConfigViolation::ZeroDegreeRebuildThreshold)
        } else {
            Ok(())
        },
{
    if num_clusters == 0 {
        return Err(ConfigViolation::ZeroClusters);
    }
    if !sigma_valid {
        return Err(ConfigViolation::InvalidSigma);
    }
    if coreset_size == 0 {
        return Err(ConfigViolation::ZeroCoresetSize);
    }
    if sampling_seeds == 0 {
        return Err(ConfigViolation::ZeroSamplingSeeds);
    }
    if sampling_seeds >= coreset_size {
        return Err(ConfigViolation::TooManySamplingSeeds);
    }
    if num_trials == 0 {
        return Err(ConfigViolation::ZeroTrials);
    }
    if node_capacity == 0 {
        return Err(ConfigViolation::ZeroNodeCapacity);
    }
    if expected_edges_per_node == 0 {
        return Err(ConfigViolation::ZeroExpectedEdgesPerNode);
    }
    if degree_rebuild_threshold == 0 {
        return Err(ConfigViolation::ZeroDegreeRebuildThreshold);
    }
    Ok(())
}

/// The field name followed by the words " must be non-zero".
fn must_be_non_zero_message(field: &str) -> (res: String)
    ensures
        res@ == field@ + " must be non-zero"@,
{
    let mut text = String::from_str(field);
    text.append(" must be non-zero");
    text
}

/// `value` when it is non-zero; a configuration error naming `field` otherwise.
pub fn non_zero(value: usize, field: &str) -> (res: Result<usize, RavenError>)
    ensures
        value != 0 ==> res == Ok::<usize, RavenError>(value),
        value == 0 ==> (res matches Err(RavenError::InvalidConfig(msg)) && msg@ == field@
            + " must be non-zero"@),
{
    if value == 0 {
        Err(RavenError::InvalidConfig(must_be_non_zero_message(field)))
    } else {
        Ok(value)
    }
}

/// Summary of one batch of edge updates.
#[derive(Debug, Clone, Copy, PartialEq, Eq, Structural)]
pub struct EdgeUpdateStats {
    /// Number of operations supplied.
    pub total: usize,
    /// Number of insert or update operations applied.
    pub set: usize,
    /// Number of delete operations that removed an existing edge.
    pub deleted: usize,
    /// Number of delete operations whose edge was absent.
    pub missing_deletes: usize,
}

impl Default for EdgeUpdateStats {
    fn default() -> (res: Self)
        ensures
            res == (EdgeUpdateStats { total: 0, set: 0, deleted: 0, missing_deletes: 0 }),
    {
        EdgeUpdateStats { total: 0, set: 0, deleted: 0, missing_deletes: 0 }
    }
}

} // verus!
