//! Codec configuration: families, modes and options.
use vstd::prelude::*;

pub mod cache_size;
pub mod cauchy;
pub mod classic;
pub mod incremental;
pub mod jerasure;
pub mod leopard;
pub mod leopard_gf16;
pub mod leopard_gf8;
pub mod leopard_plan;
pub mod parallel;
pub mod reconstruct;
pub mod reed_solomon;

verus! {

/// The algorithm family a codec encodes with.
#[derive(Debug, Copy, Clone, PartialEq, Eq, Structural)]
pub enum CodecFamily {
    Classic,
    LeopardGF8,
    LeopardGF16,
}

/// Whether and how a Classic request may be switched to a Leopard family.
#[derive(Debug, Copy, Clone, PartialEq, Eq, Structural)]
pub enum LeopardMode {
    Disabled,
    AsNeeded,
    PreferGF16,
    PreferLeopard,
}

/// How the Classic encoding matrix is built.
#[derive(Debug, Copy, Clone, PartialEq, Eq, Structural)]
pub enum MatrixMode {
    Vandermonde,
    Cauchy,
    JerasureLike,
    Custom,
}

/// Options of a codec.
#[derive(Debug, Copy, Clone, PartialEq, Eq, Structural)]
pub struct CodecOptions {
    pub codec_family: CodecFamily,
    pub leopard_mode: LeopardMode,
    pub matrix_mode: MatrixMode,
    /// With a single parity shard on a classic codec, make it the sum (XOR)
    /// of the data shards.
    pub fast_one_parity: bool,
    /// Whether decode matrices may be kept for later calls. This library
    /// computes the decode matrix afresh on each call; it is unique, so the
    /// setting changes no result.
    pub inversion_cache: bool,
    /// How many decode matrices may be kept; zero picks one by workload.
    pub inversion_cache_capacity: usize,
    pub max_parallel_jobs: usize,
}

/// The default options: Classic with Leopard disabled, a Vandermonde matrix,
/// the decode-matrix cache on with a capacity chosen per workload, and no job cap.
pub open spec fn default_options() -> CodecOptions {
    CodecOptions {
        codec_family: CodecFamily::Classic,
        leopard_mode: LeopardMode::Disabled,
        matrix_mode: MatrixMode::Vandermonde,
        fast_one_parity: false,
        inversion_cache: true,
        inversion_cache_capacity: 0,
        max_parallel_jobs: 0,
    }
}

impl Default for CodecOptions {
    fn default() -> (r: Self)
        ensures
            r.codec_family == CodecFamily::Classic,
            r.leopard_mode == LeopardMode::Disabled,
            r.matrix_mode == MatrixMode::Vandermonde,
            !r.fast_one_parity,
            r.inversion_cache,
            r.inversion_cache_capacity == 0,
            r.max_parallel_jobs == 0,
            r == default_options(),
    {
        CodecOptions {
            codec_family: CodecFamily::Classic,
            leopard_mode: LeopardMode::Disabled,
            matrix_mode: MatrixMode::Vandermonde,
            fast_one_parity: false,
            inversion_cache: true,
            inversion_cache_capacity: 0,
            max_parallel_jobs: 0,
        }
    }
}

/// Smallest chunk of a shard that one coding step works on.
pub const CODE_SLICE_MIN_CHUNK_BYTES: usize = 16384;

/// Chunk size for medium shards.
pub const CODE_SLICE_DEFAULT_CHUNK_BYTES: usize = 65536;

/// Chunk size for large shards.
pub const CODE_SLICE_LARGE_CHUNK_BYTES: usize = 262144;

/// Shards shorter than this are coded serially.
pub const PARALLEL_MIN_SHARD_BYTES: usize = 262144;

/// Smallest capacity of the decode-matrix cache.
pub const DATA_DECODE_MATRIX_CACHE_MIN_CAPACITY: usize = 128;

/// Largest capacity of the decode-matrix cache.
pub const DATA_DECODE_MATRIX_CACHE_MAX_CAPACITY: usize = 4096;

} // verus!
