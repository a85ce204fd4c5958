//! The parallel execution policy: whether to split coding work into parallel
//! jobs, how many, and how long each chunk is.
use vstd::prelude::*;

use crate::codec::leopard::{ceil_div, div_ceil};
use crate::codec::{
    CODE_SLICE_DEFAULT_CHUNK_BYTES, CODE_SLICE_LARGE_CHUNK_BYTES, CODE_SLICE_MIN_CHUNK_BYTES,
    PARALLEL_MIN_SHARD_BYTES,
};

verus! {

/// Version of the policy rules.
pub const PARALLEL_POLICY_VERSION: u32 = 2;

/// L2 cache size per core assumed when none was detected.
pub const DEFAULT_L2_CACHE_BYTES: usize = 1048576;

/// Tunables of the parallel policy.
#[derive(Debug, Clone, Copy, PartialEq, Eq, Structural)]
pub struct ParallelPolicy {
    pub min_parallel_shard_bytes: usize,
    pub min_bytes_per_job: usize,
    pub max_jobs: usize,
    /// Estimated L2 cache size per core in bytes. Used to bound chunk sizes so
    /// each job's working set (a chunk of every active shard) fits in L2. Set
    /// to 0 to disable cache-aware sizing.
    pub l2_cache_bytes: usize,
}

/// The outcome of the policy for one coding call.
#[derive(Debug, Clone, Copy, PartialEq, Eq, Structural)]
pub struct ParallelDecision {
    pub use_parallel: bool,
    pub jobs: usize,
    pub chunk_len: usize,
}

/// Values read from the `RS_PARALLEL_POLICY_*` settings, already parsed.
#[derive(Debug, Clone, Copy, PartialEq, Eq, Structural)]
pub struct PolicyOverrides {
    pub min_parallel_shard_bytes: Option<usize>,
    pub min_bytes_per_job: Option<usize>,
    pub max_jobs: Option<usize>,
    pub l2_cache_bytes: Option<usize>,
}

/// The policies used by encode and by the stages of reconstruction.
#[derive(Debug, Clone, Copy, PartialEq, Eq, Structural)]
pub struct RuntimeParallelPolicyCache {
    pub available_parallelism: usize,
    pub data: ParallelPolicy,
    pub reconstruct_data: ParallelPolicy,
    pub reconstruct_full_data: ParallelPolicy,
    pub reconstruct_full_parity: ParallelPolicy,
}

pub open spec fn max_int(a: int, b: int) -> int {
    if a >= b {
        a
    } else {
        b
    }
}

pub open spec fn min_int(a: int, b: int) -> int {
    if a <= b {
        a
    } else {
        b
    }
}

/// Chunk length used when the work runs serially.
pub open spec fn serial_chunk_len_spec(shard_size: int) -> int {
    if shard_size <= 16384 {
        shard_size
    } else if shard_size <= 65536 {
        16384
    } else if shard_size <= 4194304 {
        65536
    } else {
        262144
    }
}

/// The serial chunk is never longer than the shard, not empty for a
/// non-empty shard, at most 256 KiB, and does not shrink as the shard grows.
pub proof fn lemma_serial_chunk_len_law(a: int, b: int)
    requires
        0 <= a <= b,
    ensures
        serial_chunk_len_spec(a) <= a,
        a > 0 ==> serial_chunk_len_spec(a) > 0,
        serial_chunk_len_spec(a) <= 262144,
        serial_chunk_len_spec(a) <= serial_chunk_len_spec(b),
{
}

/// Number of chunks a shard is cut into: enough that no chunk exceeds the
/// per-job minimum and, with cache-aware sizing, that the working set of a
/// chunk over all active shards fits in L2.
pub open spec fn chunk_count_spec(p: ParallelPolicy, shard_size: int, data_shards: int, output_shards: int) -> int {
    let min_bytes_per_job = max_int(p.min_bytes_per_job as int, 16384);
    let base = max_int(ceil_div(shard_size, min_bytes_per_job), 1);
    let active = max_int(min_int(data_shards + output_shards, usize::MAX as int), 1);
    let ideal = p.l2_cache_bytes as int / active;
    if p.l2_cache_bytes > 0 && ideal > 0 {
        max_int(base, max_int(ceil_div(shard_size, ideal), 1))
    } else {
        base
    }
}

/// Number of jobs: bounded by the permitted parallelism and by the useful
/// amount of work (chunks, times outputs when there are more than two).
pub open spec fn jobs_spec(p: ParallelPolicy, shard_size: int, data_shards: int, output_shards: int, available_parallelism: int) -> int {
    let avail = max_int(available_parallelism, 1);
    let max_jobs = max_int(
        if p.max_jobs == 0 {
            avail
        } else {
            min_int(p.max_jobs as int, avail)
        },
        1,
    );
    let chunks = chunk_count_spec(p, shard_size, data_shards, output_shards);
    let useful = max_int(
        if output_shards <= 2 {
            chunks
        } else {
            min_int(output_shards * chunks, usize::MAX as int)
        },
        1,
    );
    max_int(min_int(max_jobs, useful), 1)
}

/// The decision of the policy.
pub open spec fn decide_spec(p: ParallelPolicy, shard_size: int, data_shards: int, output_shards: int, available_parallelism: int) -> ParallelDecision {
    if shard_size == 0 || data_shards == 0 || output_shards == 0 {
        ParallelDecision { use_parallel: false, jobs: 1, chunk_len: shard_size as usize }
    } else {
        let jobs = jobs_spec(p, shard_size, data_shards, output_shards, available_parallelism);
        let min_bytes_per_job = max_int(p.min_bytes_per_job as int, 16384);
        if shard_size < max_int(p.min_parallel_shard_bytes as int, 1) || jobs < 2 {
            ParallelDecision {
                use_parallel: false,
                jobs: 1,
                chunk_len: min_int(serial_chunk_len_spec(shard_size), shard_size) as usize,
            }
        } else {
            let per_output = max_int(1, ceil_div(jobs, output_shards));
            let chunk = ceil_div(shard_size, per_output);
            let clamped = if chunk < 16384 {
                16384
            } else if chunk > min_bytes_per_job {
                min_bytes_per_job
            } else {
                chunk
            };
            let active = max_int(min_int(data_shards + output_shards, usize::MAX as int), 1);
            let ideal = p.l2_cache_bytes as int / active;
            let bounded = if p.l2_cache_bytes > 0 && ideal > 0 {
                min_int(clamped, ideal)
            } else {
                clamped
            };
            ParallelDecision {
                use_parallel: true,
                jobs: jobs as usize,
                chunk_len: min_int(bounded, shard_size) as usize,
            }
        }
    }
}

/// The decision keeps to every limit of the policy and the machine: at least
/// one job; never more jobs than the cap of the policy when it sets one, nor
/// than the workers available; parallel only for shards of the policy's
/// minimum size and with two jobs or more, a single job otherwise; a chunk no
/// longer than the shard and not empty when parallel; and, with a non-zero L2
/// size that can take a byte of every active shard, a chunk of every active
/// shard together fits in L2.
pub proof fn lemma_decide_limits(p: ParallelPolicy, shard_size: usize, data_shards: usize, output_shards: usize, available_parallelism: usize)
    ensures
        ({
            let r = decide_spec(p, shard_size as int, data_shards as int, output_shards as int, available_parallelism as int);
            &&& r.jobs >= 1
            &&& p.max_jobs > 0 ==> r.jobs <= p.max_jobs
            &&& r.jobs <= if available_parallelism == 0 { 1 } else { available_parallelism }
            &&& !r.use_parallel ==> r.jobs == 1
            &&& r.use_parallel ==> r.jobs >= 2 && shard_size >= p.min_parallel_shard_bytes && 0 < r.chunk_len
            &&& r.chunk_len <= shard_size
            &&& r.use_parallel && p.l2_cache_bytes > 0 && p.l2_cache_bytes >= data_shards + output_shards
                ==> r.chunk_len * (data_shards + output_shards) <= p.l2_cache_bytes
        }),
{
    let r = decide_spec(p, shard_size as int, data_shards as int, output_shards as int, available_parallelism as int);
    if !(shard_size == 0 || data_shards == 0 || output_shards == 0) {
        let jobs = jobs_spec(p, shard_size as int, data_shards as int, output_shards as int, available_parallelism as int);
        assert(1 <= jobs <= max_int(available_parallelism as int, 1));
        assert(p.max_jobs > 0 ==> jobs <= p.max_jobs);
        if r.use_parallel {
            let per_output = max_int(1, ceil_div(jobs, output_shards as int));
            let chunk = ceil_div(shard_size as int, per_output);
            assert(chunk >= 1) by (nonlinear_arith)
                requires
                    chunk == shard_size as int / per_output + if shard_size as int % per_output == 0 { 0int } else { 1int },
                    per_output >= 1,
                    shard_size >= 1,
            ;
            let min_bytes_per_job = max_int(p.min_bytes_per_job as int, 16384);
            let clamped = if chunk < 16384 {
                16384
            } else if chunk > min_bytes_per_job {
                min_bytes_per_job
            } else {
                chunk
            };
            let total = data_shards + output_shards;
            let active = max_int(min_int(total, usize::MAX as int), 1);
            let ideal = p.l2_cache_bytes as int / active;
            if p.l2_cache_bytes > 0 && p.l2_cache_bytes >= total {
                assert(active == total);
                assert(ideal >= 1 && ideal * active <= p.l2_cache_bytes) by (nonlinear_arith)
                    requires
                        ideal == p.l2_cache_bytes as int / active,
                        active >= 1,
                        p.l2_cache_bytes >= active,
                ;
                let bounded = min_int(clamped, ideal);
                let c = min_int(bounded, shard_size as int);
                assert(r.chunk_len == c);
                assert(c * total <= ideal * active) by (nonlinear_arith)
                    requires
                        c <= ideal,
                        total == active,
                        active >= 1,
                ;
            }
        }
    }
}

fn max_usize(a: usize, b: usize) -> (r: usize)
    ensures
        r == max_int(a as int, b as int),
{
    if a >= b {
        a
    } else {
        b
    }
}

fn min_usize(a: usize, b: usize) -> (r: usize)
    ensures
        r == min_int(a as int, b as int),
{
    if a <= b {
        a
    } else {
        b
    }
}

fn saturating_mul(a: usize, b: usize) -> (r: usize)
    ensures
        r == min_int(a * b, usize::MAX as int),
{
    match a.checked_mul(b) {
        Some(v) => v,
        None => usize::MAX,
    }
}

impl ParallelPolicy {
    /// The default tunables, with the L2 cache size detected or else assumed.
    pub open spec fn from_detected_l2_cache_spec(detected_l2_cache_bytes: Option<usize>) -> Self {
        ParallelPolicy {
            min_parallel_shard_bytes: 262144,
            min_bytes_per_job: 262144,
            max_jobs: 0,
            l2_cache_bytes: match detected_l2_cache_bytes {
                Some(v) => v,
                None => 1048576usize,
            },
        }
    }

    /// The default policy, sized for the detected L2 cache when one was detected.
    pub fn from_detected_l2_cache(detected_l2_cache_bytes: Option<usize>) -> (r: Self)
        ensures
            r.min_parallel_shard_bytes == 262144,
            r.min_bytes_per_job == 262144,
            r.max_jobs == 0,
            r.l2_cache_bytes == match detected_l2_cache_bytes {
                Some(v) => v,
                None => 1048576usize,
            },
            r == Self::from_detected_l2_cache_spec(detected_l2_cache_bytes),
    {
        ParallelPolicy {
            min_parallel_shard_bytes: PARALLEL_MIN_SHARD_BYTES,
            min_bytes_per_job: CODE_SLICE_LARGE_CHUNK_BYTES,
            max_jobs: 0,
            l2_cache_bytes: match detected_l2_cache_bytes {
                Some(v) => v,
                None => DEFAULT_L2_CACHE_BYTES,
            },
        }
    }

    /// Decide whether to use parallel execution and how to chunk the work.
    pub fn decide(
        &self,
        shard_size: usize,
        data_shards: usize,
        output_shards: usize,
        available_parallelism: usize,
    ) -> (r: ParallelDecision)
        ensures
            r == decide_spec(
                *self,
                shard_size as int,
                data_shards as int,
                output_shards as int,
                available_parallelism as int,
            ),
            r.jobs >= 1,
            r.chunk_len <= shard_size,
            !r.use_parallel ==> r.jobs == 1,
            r.use_parallel ==> r.jobs >= 2 && r.jobs <= max_int(available_parallelism as int, 1)
                && shard_size >= self.min_parallel_shard_bytes && r.chunk_len > 0,
            r.use_parallel && self.l2_cache_bytes > 0 && self.l2_cache_bytes >= data_shards + output_shards
                ==> r.chunk_len * (data_shards + output_shards) <= self.l2_cache_bytes,
            self.max_jobs > 0 ==> r.jobs <= self.max_jobs,
    {
        proof {
            lemma_decide_limits(*self, shard_size, data_shards, output_shards, available_parallelism);
        }
        if shard_size == 0 || data_shards == 0 || output_shards == 0 {
            return ParallelDecision { use_parallel: false, jobs: 1, chunk_len: shard_size };
        }
        let available = max_usize(available_parallelism, 1);
        let max_jobs = max_usize(
            if self.max_jobs == 0 {
                available
            } else {
                min_usize(self.max_jobs, available)
            },
            1,
        );
        let min_parallel_shard_bytes = max_usize(self.min_parallel_shard_bytes, 1);
        let min_bytes_per_job = max_usize(self.min_bytes_per_job, CODE_SLICE_MIN_CHUNK_BYTES);
        let mut chunk_count = max_usize(div_ceil(shard_size, min_bytes_per_job), 1);
        if self.l2_cache_bytes > 0 {
            let active_shards = max_usize(data_shards.saturating_add(output_shards), 1);
            let ideal_chunk = self.l2_cache_bytes / active_shards;
            if ideal_chunk > 0 {
                let cache_chunk_count = max_usize(div_ceil(shard_size, ideal_chunk), 1);
                chunk_count = max_usize(chunk_count, cache_chunk_count);
            }
        }
        let max_useful_jobs = max_usize(
            if output_shards <= 2 {
                chunk_count
            } else {
                saturating_mul(output_shards, chunk_count)
            },
            1,
        );
        let jobs = max_usize(min_usize(max_jobs, max_useful_jobs), 1);
        if shard_size < min_parallel_shard_bytes || jobs < 2 {
            return ParallelDecision {
                use_parallel: false,
                jobs: 1,
                chunk_len: min_usize(Self::serial_chunk_len(shard_size), shard_size),
            };
        }
        let chunks_per_output = max_usize(1, div_ceil(jobs, output_shards));
        let chunk = div_ceil(shard_size, chunks_per_output);
        let clamped = if chunk < CODE_SLICE_MIN_CHUNK_BYTES {
            CODE_SLICE_MIN_CHUNK_BYTES
        } else if chunk > min_bytes_per_job {
            min_bytes_per_job
        } else {
            chunk
        };
        let mut bounded = clamped;
        if self.l2_cache_bytes > 0 {
            let active_shards = max_usize(data_shards.saturating_add(output_shards), 1);
            let ideal_chunk = self.l2_cache_bytes / active_shards;
            if ideal_chunk > 0 {
                bounded = min_usize(clamped, ideal_chunk);
                proof {
                    if self.l2_cache_bytes >= data_shards + output_shards {
                        assert(active_shards == data_shards + output_shards);
                        assert(ideal_chunk * active_shards <= self.l2_cache_bytes) by (nonlinear_arith)
                            requires
                                ideal_chunk == self.l2_cache_bytes / active_shards,
                                active_shards > 0,
                        ;
                        assert(bounded * active_shards <= ideal_chunk * active_shards) by (nonlinear_arith)
                            requires
                                bounded <= ideal_chunk,
                                active_shards > 0,
                        ;
                    }
                }
            }
        }
        let chunk_len = min_usize(bounded, shard_size);
        proof {
            if self.l2_cache_bytes > 0 && self.l2_cache_bytes >= data_shards + output_shards {
                assert(chunk_len * (data_shards + output_shards) <= bounded * (data_shards + output_shards)) by (nonlinear_arith)
                    requires
                        chunk_len <= bounded,
                        data_shards + output_shards >= 0,
                ;
            }
        }
        ParallelDecision { use_parallel: true, jobs, chunk_len }
    }

    /// Chunk length for serial execution: grows with the shard size.
    pub fn serial_chunk_len(shard_size: usize) -> (r: usize)
        ensures
            r == serial_chunk_len_spec(shard_size as int),
            r <= shard_size,
            shard_size > 0 ==> r > 0,
            r <= 262144,
    {
        proof {
            lemma_serial_chunk_len_law(shard_size as int, shard_size as int);
        }
        if shard_size <= CODE_SLICE_MIN_CHUNK_BYTES {
            shard_size
        } else if shard_size <= CODE_SLICE_DEFAULT_CHUNK_BYTES {
            CODE_SLICE_MIN_CHUNK_BYTES
        } else if shard_size <= 4 * 1024 * 1024 {
            CODE_SLICE_DEFAULT_CHUNK_BYTES
        } else {
            CODE_SLICE_LARGE_CHUNK_BYTES
        }
    }

    /// Builder-style setter for the L2 cache size.
    pub fn with_l2_cache_bytes(self, bytes: usize) -> (r: Self)
        ensures
            r == (ParallelPolicy { l2_cache_bytes: bytes, ..self }),
    {
        let mut policy = self;
        policy.l2_cache_bytes = bytes;
        policy
    }

    /// Applies overrides read from the environment: the two byte thresholds only
    /// when positive, the job cap and cache size whenever given.
    pub fn with_env_overrides(self, overrides: PolicyOverrides) -> (r: Self)
        ensures
            r.min_parallel_shard_bytes == match overrides.min_parallel_shard_bytes {
                Some(v) => if v > 0 {
                    v
                } else {
                    self.min_parallel_shard_bytes
                },
                None => self.min_parallel_shard_bytes,
            },
            r.min_bytes_per_job == match overrides.min_bytes_per_job {
                Some(v) => if v > 0 {
                    v
                } else {
                    self.min_bytes_per_job
                },
                None => self.min_bytes_per_job,
            },
            r.max_jobs == match overrides.max_jobs {
                Some(v) => v,
                None => self.max_jobs,
            },
            r.l2_cache_bytes == match overrides.l2_cache_bytes {
                Some(v) => v,
                None => self.l2_cache_bytes,
            },
    {
        let mut policy = self;
        if let Some(value) = overrides.min_parallel_shard_bytes {
            if value > 0 {
                policy.min_parallel_shard_bytes = value;
            }
        }
        if let Some(value) = overrides.min_bytes_per_job {
            if value > 0 {
                policy.min_bytes_per_job = value;
            }
        }
        if let Some(value) = overrides.max_jobs {
            policy.max_jobs = value;
        }
        if let Some(value) = overrides.l2_cache_bytes {
            policy.l2_cache_bytes = value;
        }
        policy
    }
}

impl Default for ParallelPolicy {
    /// The policy with the assumed L2 cache size; sizing for a detected cache
    /// is `from_detected_l2_cache`.
    fn default() -> (r: Self)
        ensures
            r == ParallelPolicy::from_detected_l2_cache_spec(None),
    {
        ParallelPolicy::from_detected_l2_cache(None)
    }
}

impl RuntimeParallelPolicyCache {
    /// Uses the one policy for every stage.
    pub fn new(data: ParallelPolicy, available_parallelism: usize) -> (r: Self)
        ensures
            r == (RuntimeParallelPolicyCache {
                available_parallelism,
                data,
                reconstruct_data: data,
                reconstruct_full_data: data,
                reconstruct_full_parity: data,
            }),
    {
        RuntimeParallelPolicyCache {
            available_parallelism,
            data,
            reconstruct_data: data,
            reconstruct_full_data: data,
            reconstruct_full_parity: data,
        }
    }

    /// The policy of a reconstruction, data-only or full.
    pub fn reconstruct_policy(&self, data_only: bool) -> (r: ParallelPolicy)
        ensures
            r == if data_only {
                self.reconstruct_data
            } else {
                self.reconstruct_full_data
            },
    {
        if data_only {
            self.reconstruct_data
        } else {
            self.reconstruct_full_data
        }
    }

    /// The policies of the data stage and of the parity stage of a reconstruction.
    pub fn reconstruct_stage_policies(&self, data_only: bool) -> (r: (ParallelPolicy, ParallelPolicy))
        ensures
            r == if data_only {
                (self.reconstruct_data, self.reconstruct_data)
            } else {
                (self.reconstruct_full_data, self.reconstruct_full_parity)
            },
    {
        if data_only {
            (self.reconstruct_data, self.reconstruct_data)
        } else {
            (self.reconstruct_full_data, self.reconstruct_full_parity)
        }
    }
}

} // verus!
