//! Reconstruction policies of the GF(2^8) codec: reconstruction runs parallel
//! only for larger shards than encoding does.
use vstd::prelude::*;

use crate::codec::parallel::{ParallelPolicy, RuntimeParallelPolicyCache, max_int};

verus! {

/// Data-only reconstruction runs serially below this shard length.
pub const RECONSTRUCT_DATA_MIN_PARALLEL_SHARD_BYTES: usize = 524288;

/// Full reconstruction runs serially below this shard length.
pub const RECONSTRUCT_FULL_MIN_PARALLEL_SHARD_BYTES: usize = 262144;

/// Values read from the `RS_RECONSTRUCT_*` settings, already parsed.
#[derive(Debug, Clone, Copy, PartialEq, Eq, Structural)]
pub struct ReconstructOverrides {
    pub data_min_parallel_shard_bytes: Option<usize>,
    pub full_min_parallel_shard_bytes: Option<usize>,
    pub min_bytes_per_job: Option<usize>,
}

/// Values read from the `RS_AARCH64_RECONSTRUCT_*` settings, already parsed.
#[derive(Debug, Clone, Copy, PartialEq, Eq, Structural)]
pub struct Aarch64ReconstructOverrides {
    pub min_parallel_shard_bytes: Option<usize>,
    pub min_bytes_per_job: Option<usize>,
    pub max_jobs: Option<usize>,
    pub data_min_bytes_per_job: Option<usize>,
    pub parity_min_bytes_per_job: Option<usize>,
}

/// A setting counts only when it is positive.
pub open spec fn positive_or(v: Option<usize>, default: usize) -> usize {
    match v {
        Some(x) => if x > 0 {
            x
        } else {
            default
        },
        None => default,
    }
}

fn positive_or_default(v: Option<usize>, default: usize) -> (r: usize)
    ensures
        r == positive_or(v, default),
{
    match v {
        Some(x) => if x > 0 {
            x
        } else {
            default
        },
        None => default,
    }
}

/// The reconstruction policy derived from the encode policy `base`.
pub open spec fn reconstruct_parallel_policy_default_spec(
    base: ParallelPolicy,
    data_only: bool,
    overrides: ReconstructOverrides,
) -> ParallelPolicy {
    let data_only_min = positive_or(overrides.data_min_parallel_shard_bytes, 524288);
    let full_min = positive_or(overrides.full_min_parallel_shard_bytes, 262144);
    let min_bytes_per_job = positive_or(overrides.min_bytes_per_job, base.min_bytes_per_job);
    ParallelPolicy {
        min_parallel_shard_bytes: if data_only {
            max_int(base.min_parallel_shard_bytes as int, data_only_min as int) as usize
        } else {
            max_int((base.min_parallel_shard_bytes / 2) as int, full_min as int) as usize
        },
        min_bytes_per_job,
        max_jobs: base.max_jobs,
        l2_cache_bytes: base.l2_cache_bytes,
    }
}

/// Derives the data-only or full reconstruction policy from the encode policy.
pub fn reconstruct_parallel_policy_default(
    base: ParallelPolicy,
    data_only: bool,
    overrides: ReconstructOverrides,
) -> (r: ParallelPolicy)
    ensures
        r == reconstruct_parallel_policy_default_spec(base, data_only, overrides),
{
    let data_only_min = positive_or_default(
        overrides.data_min_parallel_shard_bytes,
        RECONSTRUCT_DATA_MIN_PARALLEL_SHARD_BYTES,
    );
    let full_min = positive_or_default(
        overrides.full_min_parallel_shard_bytes,
        RECONSTRUCT_FULL_MIN_PARALLEL_SHARD_BYTES,
    );
    let min_bytes_per_job = positive_or_default(overrides.min_bytes_per_job, base.min_bytes_per_job);
    if data_only {
        ParallelPolicy {
            min_parallel_shard_bytes: if base.min_parallel_shard_bytes >= data_only_min {
                base.min_parallel_shard_bytes
            } else {
                data_only_min
            },
            min_bytes_per_job,
            max_jobs: base.max_jobs,
            l2_cache_bytes: base.l2_cache_bytes,
        }
    } else {
        let half = base.min_parallel_shard_bytes / 2;
        ParallelPolicy {
            min_parallel_shard_bytes: if half >= full_min {
                half
            } else {
                full_min
            },
            min_bytes_per_job,
            max_jobs: base.max_jobs,
            l2_cache_bytes: base.l2_cache_bytes,
        }
    }
}

/// The policies of a target other than aarch64: encode uses `base`, the
/// reconstruction stages the derived data-only and full policies.
pub fn resolve_runtime_parallel_policy_cache(
    base: ParallelPolicy,
    overrides: ReconstructOverrides,
    available_parallelism: usize,
) -> (r: RuntimeParallelPolicyCache)
    ensures
        r.available_parallelism == available_parallelism,
        r.data == base,
        r.reconstruct_data == reconstruct_parallel_policy_default_spec(base, true, overrides),
        r.reconstruct_full_data == reconstruct_parallel_policy_default_spec(base, false, overrides),
        r.reconstruct_full_parity == reconstruct_parallel_policy_default_spec(base, false, overrides),
{
    let reconstruct_data = reconstruct_parallel_policy_default(base, true, overrides);
    let reconstruct_full = reconstruct_parallel_policy_default(base, false, overrides);
    RuntimeParallelPolicyCache {
        available_parallelism,
        data: base,
        reconstruct_data,
        reconstruct_full_data: reconstruct_full,
        reconstruct_full_parity: reconstruct_full,
    }
}

/// The policies of an aarch64 target: the full-reconstruction data stage takes
/// the aarch64 overrides, the data-only policy shares its thresholds and job cap,
/// and each stage may have its own bytes per job.
pub fn reconstruct_policy_cache_aarch64(
    base: ParallelPolicy,
    overrides: ReconstructOverrides,
    arm: Aarch64ReconstructOverrides,
    available_parallelism: usize,
) -> (r: RuntimeParallelPolicyCache)
    ensures
        ({
            let full = reconstruct_parallel_policy_default_spec(base, false, overrides);
            let data_only = reconstruct_parallel_policy_default_spec(base, true, overrides);
            let full_min = positive_or(arm.min_parallel_shard_bytes, full.min_parallel_shard_bytes);
            let full_bytes = positive_or(arm.min_bytes_per_job, full.min_bytes_per_job);
            let full_jobs = match arm.max_jobs {
                Some(v) => v,
                None => full.max_jobs,
            };
            &&& r.available_parallelism == available_parallelism
            &&& r.data == base
            &&& r.reconstruct_full_data == (ParallelPolicy {
                min_parallel_shard_bytes: full_min,
                min_bytes_per_job: full_bytes,
                max_jobs: full_jobs,
                ..full
            })
            &&& r.reconstruct_data == (ParallelPolicy {
                min_parallel_shard_bytes: full_min,
                min_bytes_per_job: positive_or(arm.data_min_bytes_per_job, full_bytes),
                max_jobs: full_jobs,
                ..data_only
            })
            &&& r.reconstruct_full_parity == (ParallelPolicy {
                min_bytes_per_job: positive_or(arm.parity_min_bytes_per_job, full.min_bytes_per_job),
                ..full
            })
        }),
{
    let mut reconstruct_full_data = reconstruct_parallel_policy_default(base, false, overrides);
    reconstruct_full_data.min_parallel_shard_bytes = positive_or_default(
        arm.min_parallel_shard_bytes,
        reconstruct_full_data.min_parallel_shard_bytes,
    );
    reconstruct_full_data.min_bytes_per_job = positive_or_default(
        arm.min_bytes_per_job,
        reconstruct_full_data.min_bytes_per_job,
    );
    if let Some(value) = arm.max_jobs {
        reconstruct_full_data.max_jobs = value;
    }
    let mut reconstruct_data = reconstruct_parallel_policy_default(base, true, overrides);
    reconstruct_data.min_parallel_shard_bytes = reconstruct_full_data.min_parallel_shard_bytes;
    reconstruct_data.min_bytes_per_job = reconstruct_full_data.min_bytes_per_job;
    reconstruct_data.max_jobs = reconstruct_full_data.max_jobs;
    let mut reconstruct_full_parity = reconstruct_parallel_policy_default(base, false, overrides);
    reconstruct_full_parity.min_bytes_per_job = positive_or_default(
        arm.parity_min_bytes_per_job,
        reconstruct_full_parity.min_bytes_per_job,
    );
    reconstruct_data.min_bytes_per_job = positive_or_default(
        arm.data_min_bytes_per_job,
        reconstruct_data.min_bytes_per_job,
    );
    RuntimeParallelPolicyCache {
        available_parallelism,
        data: base,
        reconstruct_data,
        reconstruct_full_data,
        reconstruct_full_parity,
    }
}

} // verus!
