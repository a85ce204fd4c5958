//! What constructing a codec decides: the shard counts, the codec family the
//! options resolve to, the decode-matrix cache capacity; and the helpers that
//! split a buffer into data shards and join them back.
use vstd::prelude::*;

use crate::codec::leopard::{
    ceil_div, checked_next_power_of_two, div_ceil, leopard_shard_combo_fits_spec,
    max_total_shards_for_family, next_power_of_two, resolve_codec_family,
    resolve_codec_family_spec, validate_leopard_family,
};
use crate::codec::{
    CodecFamily, CodecOptions, DATA_DECODE_MATRIX_CACHE_MAX_CAPACITY, default_options,
    DATA_DECODE_MATRIX_CACHE_MIN_CAPACITY, MatrixMode,
};
use crate::codec::parallel::{
    PARALLEL_POLICY_VERSION, ParallelDecision, ParallelPolicy, PolicyOverrides, RuntimeParallelPolicyCache, decide_spec,
};
use crate::codec::cauchy::lemma_options_matrix_is_mds;
use crate::codec::classic::{is_mds_code, is_systematic, is_vandermonde_code, matrix_for_options};
use crate::errors::Error;
use crate::matrix::{Matrix, is_matrix};
use crate::galois_8::policy::{ReconstructOverrides, reconstruct_parallel_policy_default_spec, resolve_runtime_parallel_policy_cache};

verus! {

/// A codec over GF(2^8): shard counts, the resolved family, the encoding
/// matrix and the normalized options.
#[derive(Debug, Clone, PartialEq, Eq)]
pub struct ReedSolomon {
    pub(crate) data_shard_count: usize,
    pub(crate) parity_shard_count: usize,
    pub(crate) total_shard_count: usize,
    pub(crate) codec_family: CodecFamily,
    pub(crate) matrix: Matrix,
    pub(crate) options: CodecOptions,
    pub(crate) policy_cache: RuntimeParallelPolicyCache,
}

/// `a + b`, or `usize::MAX` when it does not fit.
pub open spec fn sat_add(a: int, b: int) -> int {
    if a + b > usize::MAX {
        usize::MAX as int
    } else {
        a + b
    }
}

/// `a * b`, or `usize::MAX` when it does not fit.
pub open spec fn sat_mul(a: int, b: int) -> int {
    if a * b > usize::MAX {
        usize::MAX as int
    } else {
        a * b
    }
}

/// The cache capacity a workload suggests: twice the number of shards times
/// the number of parity shards (at least one), rounded up to a power of two and
/// clamped to the cache limits.
pub open spec fn recommended_capacity_spec(data_shards: usize, parity_shards: usize) -> int {
    let total = sat_add(data_shards as int, parity_shards as int);
    let heuristic = sat_mul(sat_mul(total, if parity_shards >= 1 { parity_shards as int } else { 1 }), 2);
    let p = next_power_of_two(heuristic as nat);
    let rounded = if p <= usize::MAX {
        p as int
    } else {
        DATA_DECODE_MATRIX_CACHE_MAX_CAPACITY as int
    };
    if rounded < DATA_DECODE_MATRIX_CACHE_MIN_CAPACITY {
        DATA_DECODE_MATRIX_CACHE_MIN_CAPACITY as int
    } else if rounded > DATA_DECODE_MATRIX_CACHE_MAX_CAPACITY {
        DATA_DECODE_MATRIX_CACHE_MAX_CAPACITY as int
    } else {
        rounded
    }
}

/// What `with_options` decides for GF(2^8): the first failed check, in the
/// order the constructor makes them, or the resolved family and the capacity.
pub open spec fn with_options_spec(data_shards: usize, parity_shards: usize, options: CodecOptions) -> Result<
    (CodecFamily, int),
    Error,
> {
    if data_shards == 0 {
        Err(Error::TooFewDataShards)
    } else if parity_shards == 0 {
        Err(Error::TooFewParityShards)
    } else if data_shards + parity_shards > usize::MAX {
        Err(Error::TooManyShards)
    } else {
        let total = (data_shards + parity_shards) as usize;
        let family = resolve_codec_family_spec(options.codec_family, options.leopard_mode, true, total, parity_shards);
        let cap = match family {
            CodecFamily::Classic => 256int,
            CodecFamily::LeopardGF8 => 256int,
            CodecFamily::LeopardGF16 => 65536int,
        };
        if total > cap {
            Err(Error::TooManyShards)
        } else if family == CodecFamily::LeopardGF8 && !leopard_shard_combo_fits_spec(data_shards, parity_shards, 256) {
            Err(Error::TooManyShards)
        } else if family == CodecFamily::LeopardGF16 && !leopard_shard_combo_fits_spec(data_shards, parity_shards, 65536) {
            Err(Error::TooManyShards)
        } else if family != CodecFamily::Classic {
            Err(Error::UnsupportedCodecFamily)
        } else if options.matrix_mode == MatrixMode::Custom {
            Err(Error::InvalidCustomMatrix)
        } else {
            Ok((
                family,
                if options.inversion_cache_capacity > 0 {
                    options.inversion_cache_capacity as int
                } else {
                    recommended_capacity_spec(data_shards, parity_shards)
                },
            ))
        }
    }
}

/// The shard length `split` uses: the buffer length over the data shard count,
/// rounded up (zero for an empty buffer).
pub open spec fn split_shard_len(len: int, data_shards: int) -> int {
    if len == 0 {
        0
    } else {
        ceil_div(len, data_shards)
    }
}

fn saturating_add(a: usize, b: usize) -> (r: usize)
    ensures
        r == sat_add(a as int, b as int),
{
    match a.checked_add(b) {
        Some(v) => v,
        None => usize::MAX,
    }
}

fn saturating_mul(a: usize, b: usize) -> (r: usize)
    ensures
        r == sat_mul(a as int, b as int),
{
    match a.checked_mul(b) {
        Some(v) => v,
        None => usize::MAX,
    }
}

impl ReedSolomon {
    /// The number of data shards.
    pub closed spec fn data_count(self) -> usize {
        self.data_shard_count
    }

    /// The number of parity shards.
    pub closed spec fn parity_count(self) -> usize {
        self.parity_shard_count
    }

    /// The resolved codec family.
    pub closed spec fn family(self) -> CodecFamily {
        self.codec_family
    }

    /// The normalized options.
    pub closed spec fn opts(self) -> CodecOptions {
        self.options
    }

    /// The parallel policies of the codec.
    pub closed spec fn policy(self) -> RuntimeParallelPolicyCache {
        self.policy_cache
    }

    /// The encoding matrix: a row per shard, an entry per data shard.
    pub closed spec fn matrix_view(self) -> Seq<Seq<u8>> {
        self.matrix@
    }

    /// The counts are positive and add up, and the options carry the family;
    /// a classic codec has at most 256 shards and a systematic encoding matrix
    /// with a row per shard.
    pub closed spec fn wf(self) -> bool {
        &&& self.data_shard_count > 0
        &&& self.parity_shard_count > 0
        &&& self.total_shard_count == self.data_shard_count + self.parity_shard_count
        &&& self.options.codec_family == self.codec_family
        &&& self.matrix.wf()
        &&& self.codec_family == CodecFamily::Classic ==> {
            &&& self.total_shard_count <= 256
            &&& self.matrix.rows() == self.total_shard_count
            &&& self.matrix.cols() == self.data_shard_count
            &&& is_systematic(self.matrix@, self.data_shard_count as nat)
        }
    }

    /// A codec from its parts, for the constructors of the crate.
    pub(crate) fn assemble(
        data_shards: usize,
        parity_shards: usize,
        total_shards: usize,
        matrix: Matrix,
        options: CodecOptions,
    ) -> (rs: ReedSolomon)
        requires
            data_shards > 0,
            parity_shards > 0,
            total_shards == data_shards + parity_shards,
            matrix.wf(),
            options.codec_family == CodecFamily::Classic ==> {
                &&& total_shards <= 256
                &&& matrix.rows() == total_shards
                &&& matrix.cols() == data_shards
                &&& is_systematic(matrix@, data_shards as nat)
            },
        ensures
            rs.wf(),
            rs.data_count() == data_shards,
            rs.parity_count() == parity_shards,
            rs.family() == options.codec_family,
            rs.opts() == options,
            rs.matrix_view() == matrix@,
            rs.policy() == initial_policy_spec(options),
    {
        ReedSolomon {
            data_shard_count: data_shards,
            parity_shard_count: parity_shards,
            total_shard_count: total_shards,
            codec_family: options.codec_family,
            matrix,
            options,
            policy_cache: Self::initial_policy(options),
        }
    }

    /// The policies a codec starts with: those of no settings, for one
    /// worker. `with_runtime_policy` installs those of the environment.
    fn initial_policy(options: CodecOptions) -> (r: RuntimeParallelPolicyCache)
        ensures
            r == initial_policy_spec(options),
    {
        Self::resolve_policy_cache_with_options(options, no_policy_overrides(), no_reconstruct_overrides(), 1)
    }

    /// What the fields hold, for the modules of the crate.
    pub(crate) proof fn lemma_fields(self)
        requires
            self.wf(),
        ensures
            self.data_count() == self.data_shard_count,
            self.parity_count() == self.parity_shard_count,
            self.total_shard_count == self.data_shard_count + self.parity_shard_count,
            self.data_shard_count > 0,
            self.parity_shard_count > 0,
            self.family() == self.codec_family,
            self.opts() == self.options,
            self.matrix_view() == self.matrix@,
            self.matrix.wf(),
            self.codec_family == CodecFamily::Classic ==> {
                &&& self.total_shard_count <= 256
                &&& self.matrix.rows() == self.total_shard_count
                &&& self.matrix.cols() == self.data_shard_count
            },
    {
    }

    /// A well-formed classic codec has a `total` by `data` encoding matrix.
    pub proof fn lemma_classic_matrix(self)
        requires
            self.wf(),
            self.family() == CodecFamily::Classic,
        ensures
            is_matrix(self.matrix_view(), (self.data_count() + self.parity_count()) as int, self.data_count() as int),
            is_systematic(self.matrix_view(), self.data_count() as nat),
            self.data_count() + self.parity_count() <= 256,
            self.data_count() > 0,
            self.parity_count() > 0,
    {
        self.matrix.lemma_view();
    }

    /// The requested capacity when positive, else the recommended one.
    pub fn normalize_inversion_cache_capacity(data_shards: usize, parity_shards: usize, requested_capacity: usize) -> (r: usize)
        ensures
            r == if requested_capacity > 0 {
                requested_capacity as int
            } else {
                recommended_capacity_spec(data_shards, parity_shards)
            },
    {
        if requested_capacity > 0 {
            return requested_capacity;
        }
        Self::recommended_inversion_cache_capacity(data_shards, parity_shards)
    }

    /// The recommended decode-matrix cache capacity for a workload.
    pub fn derive_inversion_cache_capacity(data_shards: usize, parity_shards: usize) -> (r: usize)
        ensures
            r == recommended_capacity_spec(data_shards, parity_shards),
            DATA_DECODE_MATRIX_CACHE_MIN_CAPACITY <= r <= DATA_DECODE_MATRIX_CACHE_MAX_CAPACITY,
    {
        let total_shards = saturating_add(data_shards, parity_shards);
        let heuristic = saturating_mul(
            saturating_mul(total_shards, if parity_shards >= 1 { parity_shards } else { 1 }),
            2,
        );
        let rounded = match checked_next_power_of_two(heuristic) {
            Some(v) => v,
            None => DATA_DECODE_MATRIX_CACHE_MAX_CAPACITY,
        };
        if rounded < DATA_DECODE_MATRIX_CACHE_MIN_CAPACITY {
            DATA_DECODE_MATRIX_CACHE_MIN_CAPACITY
        } else if rounded > DATA_DECODE_MATRIX_CACHE_MAX_CAPACITY {
            DATA_DECODE_MATRIX_CACHE_MAX_CAPACITY
        } else {
            rounded
        }
    }

    /// The recommended decode-matrix cache capacity for a workload.
    pub fn recommended_inversion_cache_capacity(data_shards: usize, parity_shards: usize) -> (r: usize)
        ensures
            r == recommended_capacity_spec(data_shards, parity_shards),
    {
        Self::derive_inversion_cache_capacity(data_shards, parity_shards)
    }

    /// A codec with the default options.
    pub fn new(data_shards: usize, parity_shards: usize) -> (r: Result<ReedSolomon, Error>)
        ensures
            r matches Ok(rs) ==> rs.wf() && rs.data_count() == data_shards && rs.parity_count() == parity_shards
                && (rs.family() == CodecFamily::Classic ==> is_vandermonde_code(
                    rs.matrix_view(),
                    data_shards as nat,
                    (data_shards + parity_shards) as nat,
                ) && is_mds_code(rs.matrix_view(), data_shards as nat, (data_shards + parity_shards) as nat)),
            match with_options_spec(data_shards, parity_shards, default_options()) {
                Ok((family, capacity)) => r matches Ok(rs) && rs.family() == family
                    && rs.opts().inversion_cache_capacity == capacity,
                Err(e) => r == Err::<ReedSolomon, Error>(e),
            },
    {
        Self::with_options(data_shards, parity_shards, CodecOptions::default())
    }

    /// A codec with explicit options. The checks run in order: a data and a
    /// parity shard at least, a total that fits in a `usize`, the family the
    /// Leopard mode resolves to, the shard cap of that family, the family's own
    /// shard-combination rule, a family this library codes with, and a Classic
    /// matrix mode that can be built without a user matrix; a zero cache
    /// capacity becomes the recommended one. This library has no Leopard
    /// engine: a configuration that passes the Leopard checks is refused with
    /// `UnsupportedCodecFamily`, so every codec built is a Classic one. Then
    /// the encoding matrix of the options is built. The parallel policies are
    /// those of no settings, for one worker, until `with_runtime_policy`
    /// installs those of the environment.
    pub fn with_options(data_shards: usize, parity_shards: usize, options: CodecOptions) -> (r: Result<ReedSolomon, Error>)
        ensures
            r matches Ok(rs) ==> rs.wf() && rs.data_count() == data_shards && rs.parity_count() == parity_shards
                && rs.family() == CodecFamily::Classic
                && rs.opts() == (CodecOptions {
                    codec_family: rs.family(),
                    inversion_cache_capacity: rs.opts().inversion_cache_capacity,
                    ..options
                })
                && rs.policy() == initial_policy_spec(rs.opts())
                && (rs.family() == CodecFamily::Classic ==> matrix_for_options(
                    options,
                    rs.matrix_view(),
                    data_shards as nat,
                    (data_shards + parity_shards) as nat,
                ) && is_mds_code(rs.matrix_view(), data_shards as nat, (data_shards + parity_shards) as nat)),
            match with_options_spec(data_shards, parity_shards, options) {
                Ok((family, capacity)) => r matches Ok(rs) && rs.family() == family
                    && rs.opts().inversion_cache_capacity == capacity,
                Err(e) => r == Err::<ReedSolomon, Error>(e),
            },
    {
        let mut options = options;
        if data_shards == 0 {
            return Err(Error::TooFewDataShards);
        }
        if parity_shards == 0 {
            return Err(Error::TooFewParityShards);
        }
        let total_shards = match data_shards.checked_add(parity_shards) {
            Some(t) => t,
            None => return Err(Error::TooManyShards),
        };
        options.codec_family = resolve_codec_family(
            options.codec_family,
            options.leopard_mode,
            true,
            total_shards,
            parity_shards,
        );
        if total_shards > max_total_shards_for_family(options.codec_family, 256) {
            return Err(Error::TooManyShards);
        }
        match validate_leopard_family(options.codec_family, data_shards, parity_shards, true, false) {
            Ok(()) => {},
            Err(e) => return Err(e),
        }
        if options.codec_family != CodecFamily::Classic {
            return Err(Error::UnsupportedCodecFamily);
        }
        options.inversion_cache_capacity = Self::normalize_inversion_cache_capacity(
            data_shards,
            parity_shards,
            options.inversion_cache_capacity,
        );
        let matrix = match Self::build_matrix_with_options(data_shards, total_shards, options) {
            Ok(m) => {
                proof {
                    lemma_options_matrix_is_mds(options, m@, data_shards as nat, total_shards as nat);
                }
                m
            },
            Err(e) => return Err(e),
        };
        Ok(ReedSolomon {
            data_shard_count: data_shards,
            parity_shard_count: parity_shards,
            total_shard_count: total_shards,
            codec_family: options.codec_family,
            matrix,
            options,
            policy_cache: Self::initial_policy(options),
        })
    }

    /// The number of data shards.
    pub fn data_shard_count(&self) -> (r: usize)
        ensures
            r == self.data_count(),
    {
        self.data_shard_count
    }

    /// The number of parity shards.
    pub fn parity_shard_count(&self) -> (r: usize)
        ensures
            r == self.parity_count(),
    {
        self.parity_shard_count
    }

    /// The number of data and parity shards together.
    pub fn total_shard_count(&self) -> (r: usize)
        requires
            self.wf(),
        ensures
            r == self.data_count() + self.parity_count(),
    {
        self.total_shard_count
    }

    /// The codec family the codec encodes with.
    pub fn codec_family(&self) -> (r: CodecFamily)
        ensures
            r == self.family(),
    {
        self.codec_family
    }

    /// The capacity of the decode-matrix cache.
    pub fn inversion_cache_capacity(&self) -> (r: usize)
        ensures
            r == self.opts().inversion_cache_capacity,
    {
        self.options.inversion_cache_capacity
    }

    /// The length of the chunks that coding cuts shards of `shard_len` bytes
    /// into: the whole shard up to 16 KiB, then 16 KiB, 64 KiB above 64 KiB,
    /// and 256 KiB above 4 MiB.
    pub fn code_chunk_len(&self, shard_len: usize) -> (r: usize)
        ensures
            r == crate::codec::parallel::serial_chunk_len_spec(shard_len as int),
    {
        ParallelPolicy::serial_chunk_len(shard_len)
    }

    /// The shape `(rows, columns)` of the setup matrix of a GF(2^8) Leopard
    /// codec: one row per shard, one column per data shard; `None` for the
    /// other families.
    pub fn leopard_setup_matrix_shape(&self) -> (r: Option<(usize, usize)>)
        requires
            self.wf(),
        ensures
            r == if self.family() == CodecFamily::LeopardGF8 {
                Some(((self.data_count() + self.parity_count()) as usize, self.data_count()))
            } else {
                None::<(usize, usize)>
            },
    {
        if self.codec_family == CodecFamily::LeopardGF8 {
            Some((self.total_shard_count, self.data_shard_count))
        } else {
            None
        }
    }
}

/// The shards as byte sequences.
pub open spec fn shard_views(shards: Seq<Vec<u8>>) -> Seq<Seq<u8>> {
    shards.map_values(|v: Vec<u8>| v@)
}

/// What `join` reports for the given shards, or `None` when it succeeds.
pub open spec fn join_error(shards: Seq<Vec<u8>>, data_shards: int) -> Option<Error> {
    if shards.len() < data_shards {
        Some(Error::TooFewDataShards)
    } else if shards.len() > data_shards {
        Some(Error::TooManyDataShards)
    } else if shards[0]@.len() == 0 {
        Some(Error::EmptyShard)
    } else if exists|i: int| 0 <= i < shards.len() && #[trigger] shards[i]@.len() != shards[0]@.len() {
        Some(Error::IncorrectShardSize)
    } else {
        None
    }
}

proof fn lemma_split_bounds(i: int, d: int, n: int, l: int)
    requires
        0 <= i < d,
        d > 0,
        n > 0,
        l == ceil_div(n, d),
        n + d <= usize::MAX,
    ensures
        i * l + l <= n + d,
        l >= 1,
        i * l >= 0,
{
    assert(l * d < n + d) by (nonlinear_arith)
        requires
            d > 0,
            n > 0,
            l == n / d + if n % d == 0 {
                0int
            } else {
                1int
            },
    ;
    assert(i * l + l <= l * d) by (nonlinear_arith)
        requires
            0 <= i < d,
            l >= 0,
    ;
    assert(l >= 1) by (nonlinear_arith)
        requires
            d > 0,
            n > 0,
            l == n / d + if n % d == 0 {
                0int
            } else {
                1int
            },
    ;
    assert(i * l >= 0) by (nonlinear_arith)
        requires
            0 <= i,
            l >= 0,
    ;
}

impl ReedSolomon {
    /// Splits a buffer into `data_shard_count` shards of equal length: the
    /// buffer length over the shard count rounded up, the last shards padded
    /// with zeros.
    pub fn split(&self, data: &[u8]) -> (r: Result<Vec<Vec<u8>>, Error>)
        requires
            self.wf(),
            data@.len() + self.data_count() <= usize::MAX,
        ensures
            r matches Ok(shards) && shard_views(shards@) == split_spec(data@, self.data_count() as int),
    {
        let data_shards = self.data_shard_count;
        let n = data.len();
        let shard_len = if n == 0 {
            0
        } else {
            div_ceil(n, data_shards)
        };
        let ghost l = split_shard_len(n as int, data_shards as int);
        let mut shards: Vec<Vec<u8>> = Vec::new();
        let mut i: usize = 0;
        while i < data_shards
            invariant
                data_shards == self.data_count(),
                data_shards > 0,
                n == data@.len(),
                n + data_shards <= usize::MAX,
                shard_len == l,
                l == split_shard_len(n as int, data_shards as int),
                i <= data_shards,
                shards@.len() == i,
                forall|k: int|
                    0 <= k < i ==> {
                        &&& (#[trigger] shards@[k])@.len() == l
                        &&& forall|j: int|
                            0 <= j < l ==> shards@[k]@[j] == if k * l + j < n {
                                data@[k * l + j]
                            } else {
                                0u8
                            }
                    },
            decreases data_shards - i,
        {
            if n > 0 {
                proof {
                    lemma_split_bounds(i as int, data_shards as int, n as int, l);
                }
            } else {
                assert(i * shard_len == 0) by (nonlinear_arith)
                    requires
                        shard_len == 0,
                ;
            }
            let start = i * shard_len;
            let end = if start + shard_len < n {
                start + shard_len
            } else {
                n
            };
            let mut shard: Vec<u8> = vec![0u8; shard_len];
            if start < n {
                let mut j: usize = 0;
                while j < end - start
                    invariant
                        start < n,
                        end <= n,
                        start <= end,
                        end - start <= shard_len,
                        shard@.len() == shard_len,
                        n == data@.len(),
                        j <= end - start,
                        forall|t: int| 0 <= t < j ==> #[trigger] shard@[t] == data@[start + t],
                        forall|t: int| j <= t < shard_len ==> #[trigger] shard@[t] == 0u8,
                    decreases end - start - j,
                {
                    shard.set(j, data[start + j]);
                    j = j + 1;
                }
            }
            proof {
                assert forall|t: int| 0 <= t < l implies #[trigger] shard@[t] == if i * l + t < n {
                    data@[i * l + t]
                } else {
                    0u8
                } by {
                    if start < n && t < end - start {
                    } else {
                        assert(shard@[t] == 0u8);
                    }
                }
            }
            shards.push(shard);
            i = i + 1;
        }
        proof {
            assert(shard_views(shards@) =~= split_spec(data@, data_shards as int)) by {
                assert forall|k: int| 0 <= k < data_shards implies #[trigger] shard_views(shards@)[k] == split_spec(data@, data_shards as int)[k] by {
                    assert(shards@[k]@ =~= split_spec(data@, data_shards as int)[k]);
                }
            }
        }
        Ok(shards)
    }

    /// Joins data shards back into one buffer of `out_len` bytes, or of all
    /// their bytes when there are fewer. Needs exactly `data_shard_count`
    /// shards, non-empty and of one length.
    pub fn join(&self, shards: &[Vec<u8>], out_len: usize) -> (r: Result<Vec<u8>, Error>)
        requires
            self.wf(),
            shard_views(shards@).flatten().len() <= usize::MAX,
        ensures
            match join_error(shards@, self.data_count() as int) {
                Some(e) => r == Err::<Vec<u8>, Error>(e),
                None => r matches Ok(v) && v@ == shard_views(shards@).flatten().take(
                    if out_len < shard_views(shards@).flatten().len() {
                        out_len as int
                    } else {
                        shard_views(shards@).flatten().len() as int
                    },
                ),
            },
    {
        if shards.len() < self.data_shard_count {
            return Err(Error::TooFewDataShards);
        }
        if shards.len() > self.data_shard_count {
            return Err(Error::TooManyDataShards);
        }
        let size = shards[0].len();
        if size == 0 {
            return Err(Error::EmptyShard);
        }
        let mut k: usize = 0;
        while k < shards.len()
            invariant
                shards@.len() == self.data_count(),
                k <= shards@.len(),
                size > 0,
                size == shards@[0]@.len(),
                forall|t: int| 0 <= t < k ==> #[trigger] shards@[t]@.len() == size,
            decreases shards@.len() - k,
        {
            if shards[k].len() != size {
                assert(shards@[k as int]@.len() != shards@[0]@.len());
                assert(join_error(shards@, self.data_count() as int) == Some(Error::IncorrectShardSize));
                return Err(Error::IncorrectShardSize);
            }
            k = k + 1;
        }
        assert(join_error(shards@, self.data_count() as int) is None);
        let ghost views = shard_views(shards@);
        let mut available: usize = 0;
        let mut k: usize = 0;
        proof {
            assert(views.take(0) =~= seq![]);
        }
        while k < shards.len()
            invariant
                views == shard_views(shards@),
                views.flatten().len() <= usize::MAX,
                k <= shards@.len(),
                available == views.take(k as int).flatten().len(),
            decreases shards@.len() - k,
        {
            proof {
                assert(views.take(k + 1) =~= views.take(k as int).push(views[k as int]));
                views.take(k as int).lemma_flatten_push(views[k as int]);
                lemma_flatten_prefix_len(views, k as int + 1);
            }
            available = available + shards[k].len();
            k = k + 1;
        }
        proof {
            assert(views.take(shards@.len() as int) =~= views);
        }
        let target_len = if out_len < available {
            out_len
        } else {
            available
        };
        let mut result: Vec<u8> = Vec::new();
        let mut k: usize = 0;
        assert(views.take(shards@.len() as int) =~= views);
        assert(result@ =~= views.take(0).flatten().take(0));
        while k < shards.len()
            invariant
                views == shard_views(shards@),
                target_len <= views.flatten().len(),
                k <= shards@.len(),
                result@.len() <= target_len,
                result@.len() <= views.take(k as int).flatten().len(),
                result@ == views.take(k as int).flatten().take(result@.len() as int),
                result@.len() < target_len ==> result@.len() == views.take(k as int).flatten().len(),
                views.take(shards@.len() as int) == views,
            ensures
                result@.len() == target_len,
            decreases shards@.len() - k,
        {
            let remaining = target_len - result.len();
            if remaining == 0 {
                break;
            }
            let data = &shards[k];
            let to_take = if remaining < data.len() {
                remaining
            } else {
                data.len()
            };
            let ghost before = result@;
            let mut j: usize = 0;
            while j < to_take
                invariant
                    to_take <= data@.len(),
                    result@.len() == before.len() + j,
                    result@.subrange(0, before.len() as int) == before,
                    forall|t: int| 0 <= t < j ==> #[trigger] result@[before.len() + t] == data@[t],
                    j <= to_take,
                decreases to_take - j,
            {
                result.push(data[j]);
                j = j + 1;
            }
            proof {
                assert(views[k as int] == data@);
                assert(views.take(k + 1) =~= views.take(k as int).push(data@));
                views.take(k as int).lemma_flatten_push(data@);
                let f = views.take(k as int).flatten();
                assert(before =~= f);
                assert forall|t: int| 0 <= t < result@.len() implies #[trigger] result@[t] == (f + data@)[t] by {
                    if t < before.len() {
                        assert(result@.subrange(0, before.len() as int)[t] == before[t]);
                    } else {
                        assert(result@[before.len() + (t - before.len())] == data@[t - before.len()]);
                    }
                }
                assert(result@ =~= (f + data@).take(result@.len() as int));
            }
            k = k + 1;
        }
        proof {
            if result@.len() < target_len {
                assert(views.take(shards@.len() as int) =~= views);
            }
            lemma_flatten_prefix(views, k as int);
            let f = views.take(k as int).flatten();
            assert(result@ =~= views.flatten().take(target_len as int)) by {
                assert(views.flatten().take(f.len() as int) == f);
                assert forall|t: int| 0 <= t < target_len implies #[trigger] result@[t] == views.flatten()[t] by {
                    assert(t < f.len());
                    assert(result@[t] == f[t]);
                    assert(views.flatten().take(f.len() as int)[t] == f[t]);
                }
            }
        }
        Ok(result)
    }
}

/// Flattening a prefix gives a prefix of the flattened whole.
proof fn lemma_flatten_prefix(views: Seq<Seq<u8>>, k: int)
    requires
        0 <= k <= views.len(),
    ensures
        views.take(k).flatten().len() <= views.flatten().len(),
        views.flatten().take(views.take(k).flatten().len() as int) == views.take(k).flatten(),
    decreases views.len() - k,
{
    if k < views.len() {
        lemma_flatten_prefix(views, k + 1);
        assert(views.take(k + 1) =~= views.take(k).push(views[k]));
        views.take(k).lemma_flatten_push(views[k]);
        let a = views.take(k).flatten();
        let b = views.take(k + 1).flatten();
        assert(views.flatten().take(a.len() as int) =~= b.take(a.len() as int));
        assert(b.take(a.len() as int) =~= a);
    } else {
        assert(views.take(k) =~= views);
        assert(views.flatten().take(views.flatten().len() as int) =~= views.flatten());
    }
}

/// Flattening a prefix gives no more elements than flattening the whole.
proof fn lemma_flatten_prefix_len(views: Seq<Seq<u8>>, k: int)
    requires
        0 <= k <= views.len(),
    ensures
        views.take(k).flatten().len() <= views.flatten().len(),
    decreases views.len() - k,
{
    if k < views.len() {
        lemma_flatten_prefix_len(views, k + 1);
        assert(views.take(k + 1) =~= views.take(k).push(views[k]));
        views.take(k).lemma_flatten_push(views[k]);
    } else {
        assert(views.take(k) =~= views);
    }
}

/// The data-coding policy of a codec: the default tunables with the
/// environment overrides applied, then the job cap of the options when positive.
pub open spec fn data_policy_spec(options: CodecOptions, env: PolicyOverrides) -> ParallelPolicy {
    let d = ParallelPolicy::from_detected_l2_cache_spec(None);
    let p = ParallelPolicy {
        min_parallel_shard_bytes: match env.min_parallel_shard_bytes {
            Some(v) => if v > 0 { v } else { d.min_parallel_shard_bytes },
            None => d.min_parallel_shard_bytes,
        },
        min_bytes_per_job: match env.min_bytes_per_job {
            Some(v) => if v > 0 { v } else { d.min_bytes_per_job },
            None => d.min_bytes_per_job,
        },
        max_jobs: match env.max_jobs {
            Some(v) => v,
            None => d.max_jobs,
        },
        l2_cache_bytes: match env.l2_cache_bytes {
            Some(v) => v,
            None => d.l2_cache_bytes,
        },
    };
    if options.max_parallel_jobs > 0 {
        ParallelPolicy { max_jobs: options.max_parallel_jobs, ..p }
    } else {
        p
    }
}

impl ReedSolomon {
    /// The parallel policies of a GF(2^8) codec: the data policy, and the
    /// reconstruction stages derived from it with the reconstruct overrides.
    pub fn resolve_policy_cache_with_options(
        options: CodecOptions,
        env: PolicyOverrides,
        reconstruct: ReconstructOverrides,
        available_parallelism: usize,
    ) -> (r: RuntimeParallelPolicyCache)
        ensures
            r.available_parallelism == available_parallelism,
            r.data == data_policy_spec(options, env),
            r.reconstruct_data == reconstruct_parallel_policy_default_spec(data_policy_spec(options, env), true, reconstruct),
            r.reconstruct_full_data == reconstruct_parallel_policy_default_spec(data_policy_spec(options, env), false, reconstruct),
            r.reconstruct_full_parity == reconstruct_parallel_policy_default_spec(data_policy_spec(options, env), false, reconstruct),
    {
        let mut data = ParallelPolicy::default().with_env_overrides(env);
        if options.max_parallel_jobs > 0 {
            data.max_jobs = options.max_parallel_jobs;
        }
        resolve_runtime_parallel_policy_cache(data, reconstruct, available_parallelism)
    }
}

/// The shards `split` makes of a buffer for `d` data shards: `d` shards of
/// `split_shard_len` bytes each, shard `i` holding bytes `i*L ..` of the buffer
/// and zeros past its end.
pub open spec fn split_spec(data: Seq<u8>, d: int) -> Seq<Seq<u8>> {
    let l = split_shard_len(data.len() as int, d);
    Seq::new(d as nat, |i: int| Seq::new(l as nat, |j: int| if i * l + j < data.len() { data[i * l + j] } else { 0u8 }))
}

/// Flattening `s.len()` sequences of length `l` puts element `j` of sequence
/// `i` at `i * l + j`.
proof fn lemma_flatten_uniform(s: Seq<Seq<u8>>, l: int)
    requires
        l >= 0,
        forall|i: int| 0 <= i < s.len() ==> (#[trigger] s[i]).len() == l,
    ensures
        s.flatten().len() == s.len() * l,
        forall|i: int, j: int| 0 <= i < s.len() && 0 <= j < l ==> s.flatten()[i * l + j] == #[trigger] s[i][j],
    decreases s.len(),
{
    if s.len() == 0 {
    } else {
        let rest = s.drop_first();
        lemma_flatten_uniform(rest, l);
        assert(s.flatten() == s[0] + rest.flatten());
        assert(s.len() * l == l + rest.len() * l) by (nonlinear_arith)
            requires
                rest.len() == s.len() - 1,
        ;
        assert forall|i: int, j: int| 0 <= i < s.len() && 0 <= j < l implies s.flatten()[i * l + j] == #[trigger] s[i][j] by {
            if i > 0 {
                assert(i * l + j == l + ((i - 1) * l + j)) by (nonlinear_arith);
                assert(rest[i - 1] == s[i]);
                assert((i - 1) * l + j < rest.len() * l) by (nonlinear_arith)
                    requires
                        0 <= i - 1 < rest.len(),
                        0 <= j < l,
                ;
                assert(rest.flatten()[(i - 1) * l + j] == rest[i - 1][j]);
                assert(s.flatten()[l + ((i - 1) * l + j)] == rest.flatten()[(i - 1) * l + j]);
            } else {
                assert(s.flatten()[j] == s[0][j]);
                assert(i * l + j == j) by (nonlinear_arith)
                    requires
                        i == 0,
                ;
            }
        }
    }
}

/// Joining the shards that `split` made of a non-empty buffer, to the
/// buffer's length, gives the buffer back.
pub proof fn lemma_join_split(rs: ReedSolomon, data: Seq<u8>, shards: Seq<Vec<u8>>)
    requires
        rs.wf(),
        data.len() > 0,
        shard_views(shards) == split_spec(data, rs.data_count() as int),
    ensures
        join_error(shards, rs.data_count() as int) is None,
        data.len() <= shard_views(shards).flatten().len(),
        shard_views(shards).flatten().take(data.len() as int) == data,
{
    let d = rs.data_count() as int;
    let n = data.len() as int;
    let l = split_shard_len(n, d);
    let sp = split_spec(data, d);
    assert(l == ceil_div(n, d));
    assert(l >= 1 && l * d >= n) by (nonlinear_arith)
        requires
            d > 0,
            n > 0,
            l == n / d + if n % d == 0 {
                0int
            } else {
                1int
            },
    ;
    assert(shards.len() == d) by {
        assert(shard_views(shards).len() == shards.len());
    }
    assert(shards[0]@ == sp[0]);
    assert forall|i: int| 0 <= i < shards.len() implies #[trigger] shards[i]@.len() == shards[0]@.len() by {
        assert(shard_views(shards)[i] == sp[i]);
    }
    lemma_flatten_uniform(sp, l);
    assert(n <= d * l);
    assert forall|k: int| 0 <= k < n implies #[trigger] sp.flatten()[k] == data[k] by {
        let i = k / l;
        let j = k % l;
        assert(k == i * l + j && 0 <= j < l && 0 <= i < d) by (nonlinear_arith)
            requires
                l >= 1,
                0 <= k < n,
                n <= d * l,
                i == k / l,
                j == k % l,
        ;
        assert(sp[i][j] == data[k]);
    }
    assert(sp.flatten().take(n) =~= data);
}

/// No `RS_PARALLEL_POLICY_*` setting.
pub open spec fn no_policy_overrides_spec() -> PolicyOverrides {
    PolicyOverrides { min_parallel_shard_bytes: None, min_bytes_per_job: None, max_jobs: None, l2_cache_bytes: None }
}

/// No `RS_RECONSTRUCT_*` setting.
pub open spec fn no_reconstruct_overrides_spec() -> ReconstructOverrides {
    ReconstructOverrides { data_min_parallel_shard_bytes: None, full_min_parallel_shard_bytes: None, min_bytes_per_job: None }
}

fn no_policy_overrides() -> (r: PolicyOverrides)
    ensures
        r == no_policy_overrides_spec(),
{
    PolicyOverrides { min_parallel_shard_bytes: None, min_bytes_per_job: None, max_jobs: None, l2_cache_bytes: None }
}

fn no_reconstruct_overrides() -> (r: ReconstructOverrides)
    ensures
        r == no_reconstruct_overrides_spec(),
{
    ReconstructOverrides { data_min_parallel_shard_bytes: None, full_min_parallel_shard_bytes: None, min_bytes_per_job: None }
}

/// The policies a codec with `options` starts with: those of no settings,
/// for one worker.
pub open spec fn initial_policy_spec(options: CodecOptions) -> RuntimeParallelPolicyCache {
    let data = data_policy_spec(options, no_policy_overrides_spec());
    RuntimeParallelPolicyCache {
        available_parallelism: 1,
        data,
        reconstruct_data: reconstruct_parallel_policy_default_spec(data, true, no_reconstruct_overrides_spec()),
        reconstruct_full_data: reconstruct_parallel_policy_default_spec(data, false, no_reconstruct_overrides_spec()),
        reconstruct_full_parity: reconstruct_parallel_policy_default_spec(data, false, no_reconstruct_overrides_spec()),
    }
}

impl ReedSolomon {
    /// The codec with the parallel policies resolved from the environment.
    pub fn with_runtime_policy(self, cache: RuntimeParallelPolicyCache) -> (r: Self)
        requires
            self.wf(),
        ensures
            r.wf(),
            r.data_count() == self.data_count(),
            r.parity_count() == self.parity_count(),
            r.family() == self.family(),
            r.opts() == self.opts(),
            r.matrix_view() == self.matrix_view(),
            r.policy() == cache,
    {
        ReedSolomon {
            data_shard_count: self.data_shard_count,
            parity_shard_count: self.parity_shard_count,
            total_shard_count: self.total_shard_count,
            codec_family: self.codec_family,
            matrix: self.matrix,
            options: self.options,
            policy_cache: cache,
        }
    }

    /// The parallel decision for a coding call over `shard_len` bytes with
    /// `output_shards` outputs, for the workers of the codec's policies.
    pub fn parallel_policy(&self, shard_len: usize, output_shards: usize) -> (r: ParallelDecision)
        ensures
            r == decide_spec(
                self.policy().data,
                shard_len as int,
                self.data_count() as int,
                output_shards as int,
                self.policy().available_parallelism as int,
            ),
    {
        self.parallel_policy_with(shard_len, output_shards, self.policy_cache.available_parallelism)
    }

    /// The parallel decision of the codec's data policy for
    /// `available_parallelism` workers.
    pub fn parallel_policy_with(&self, shard_len: usize, output_shards: usize, available_parallelism: usize) -> (r: ParallelDecision)
        ensures
            r == decide_spec(
                self.policy().data,
                shard_len as int,
                self.data_count() as int,
                output_shards as int,
                available_parallelism as int,
            ),
    {
        self.policy_cache.data.decide(shard_len, self.data_shard_count, output_shards, available_parallelism)
    }

    /// The version of the parallel policy.
    pub fn parallel_policy_version(&self) -> (r: u32)
        ensures
            r == PARALLEL_POLICY_VERSION,
    {
        PARALLEL_POLICY_VERSION
    }

    /// The data policy in effect.
    pub fn effective_parallel_policy(&self) -> (r: ParallelPolicy)
        ensures
            r == self.policy().data,
    {
        self.policy_cache.data
    }

    /// The parallel decision of a reconstruction: the data-only or the full
    /// policy, over the missing data shards or all the missing shards.
    pub fn reconstruct_parallel_decision_with(
        &self,
        shard_len: usize,
        missing_data: usize,
        missing_total: usize,
        data_only: bool,
        available_parallelism: usize,
    ) -> (r: ParallelDecision)
        ensures
            r == decide_spec(
                if data_only { self.policy().reconstruct_data } else { self.policy().reconstruct_full_data },
                shard_len as int,
                self.data_count() as int,
                (if data_only { missing_data } else { missing_total }) as int,
                available_parallelism as int,
            ),
    {
        let output_shards = if data_only { missing_data } else { missing_total };
        let tuned = self.policy_cache.reconstruct_policy(data_only);
        tuned.decide(shard_len, self.data_shard_count, output_shards, available_parallelism)
    }

    /// The policies of the data and parity stages of a reconstruction.
    pub fn reconstruct_stage_policies_for_bench(&self, data_only: bool) -> (r: (ParallelPolicy, ParallelPolicy))
        ensures
            r == if data_only {
                (self.policy().reconstruct_data, self.policy().reconstruct_data)
            } else {
                (self.policy().reconstruct_full_data, self.policy().reconstruct_full_parity)
            },
    {
        self.policy_cache.reconstruct_stage_policies(data_only)
    }

    /// The decision and the stage policies of a reconstruction.
    pub fn reconstruct_execution_context_for_bench(
        &self,
        shard_len: usize,
        missing_data: usize,
        missing_total: usize,
        data_only: bool,
        available_parallelism: usize,
    ) -> (r: (ParallelDecision, ParallelPolicy, ParallelPolicy))
        ensures
            r.0 == decide_spec(
                if data_only { self.policy().reconstruct_data } else { self.policy().reconstruct_full_data },
                shard_len as int,
                self.data_count() as int,
                (if data_only { missing_data } else { missing_total }) as int,
                available_parallelism as int,
            ),
            (r.1, r.2) == if data_only {
                (self.policy().reconstruct_data, self.policy().reconstruct_data)
            } else {
                (self.policy().reconstruct_full_data, self.policy().reconstruct_full_parity)
            },
    {
        let decision = self.reconstruct_parallel_decision_with(shard_len, missing_data, missing_total, data_only, available_parallelism);
        let (data_policy, parity_policy) = self.reconstruct_stage_policies_for_bench(data_only);
        (decision, data_policy, parity_policy)
    }
}

} // verus!
