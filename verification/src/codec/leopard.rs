//! Shard-count and shard-length rules of the Leopard codec families, and the
//! resolution of a requested family.
use vstd::prelude::*;
use vstd::arithmetic::power2::{lemma2_to64, lemma_pow2_pos, lemma_pow2_unfold, pow2};

use crate::codec::{CodecFamily, LeopardMode};
use crate::errors::Error;

verus! {

/// Largest `data + parity` of the GF(2^8) Leopard family.
pub const LEOPARD_GF8_MAX_SHARDS: usize = 256;

/// Largest `data + parity` of the GF(2^16) Leopard family.
pub const LEOPARD_GF16_MAX_SHARDS: usize = 65536;

/// Parity ceiling at or below which `PreferLeopard` resolves to GF(2^8) Leopard.
pub const LEOPARD_GF8_MAX_PARITY: usize = 128;

/// Every Leopard shard length is a non-zero multiple of this value.
pub const LEOPARD_SHARD_MULTIPLE: usize = 64;

/// `a / b` rounded up, for `b > 0`.
pub open spec fn ceil_div(a: int, b: int) -> int {
    a / b + if a % b == 0 {
        0int
    } else {
        1int
    }
}

/// `n` rounded up to a multiple of the shard multiple.
pub open spec fn round_up_64(n: int) -> int {
    if n % 64 == 0 {
        n
    } else {
        n + 64 - n % 64
    }
}

/// The shard length that Leopard accepts for a payload of `data_len` bytes over
/// `data_shards` shards: the bytes per shard rounded up to a multiple of 64, at
/// least 64, and the largest multiple of 64 in a `usize` when that does not fit.
pub open spec fn leopard_aligned_shard_len_spec(data_len: usize, data_shards: usize) -> int {
    let shards = if data_shards == 0 {
        1int
    } else {
        data_shards as int
    };
    let up = round_up_64(ceil_div(data_len as int, shards));
    if up > usize::MAX {
        usize::MAX - usize::MAX % 64
    } else if up < 64 {
        64
    } else {
        up
    }
}

/// `a / b` rounded up, without overflow.
pub fn div_ceil(a: usize, b: usize) -> (r: usize)
    requires
        b > 0,
    ensures
        r == ceil_div(a as int, b as int),
        r * b >= a,
        a > 0 ==> (r - 1) * b < a,
{
    proof {
        lemma_ceil_div_law(a as int, b as int);
    }
    let q = a / b;
    if a % b == 0 {
        q
    } else {
        proof {
            if b == 1 {
                assert(a % 1 == 0);
            }
            assert(q * b <= a) by (nonlinear_arith)
                requires
                    q == a / b,
                    b > 0,
            ;
            assert(q < usize::MAX) by (nonlinear_arith)
                requires
                    q * b <= a,
                    b >= 2,
                    a <= usize::MAX,
            ;
        }
        q + 1
    }
}

/// Computes a per-shard length that Leopard accepts for a payload of `data_len`
/// bytes spread across `data_shards` data shards; a zero shard count counts as one.
pub fn leopard_aligned_shard_len(data_len: usize, data_shards: usize) -> (r: usize)
    ensures
        r == leopard_aligned_shard_len_spec(data_len, data_shards),
        r > 0,
        r % 64 == 0,
        data_shards >= 2 || data_len as int + 63 <= usize::MAX ==> r * (if data_shards == 0 { 1int } else { data_shards as int })
            >= data_len,
{
    let shards = if data_shards == 0 {
        1
    } else {
        data_shards
    };
    let per_shard = div_ceil(data_len, shards);
    let remainder = per_shard % LEOPARD_SHARD_MULTIPLE;
    let rounded = if remainder == 0 {
        per_shard
    } else {
        per_shard.saturating_add(LEOPARD_SHARD_MULTIPLE - remainder)
    };
    let clamped = if rounded > LEOPARD_SHARD_MULTIPLE {
        rounded
    } else {
        LEOPARD_SHARD_MULTIPLE
    };
    proof {
        assert(usize::MAX % 64 == 63);
        if data_shards >= 2 || data_len as int + 63 <= usize::MAX {
            lemma_aligned_shard_len_holds_payload(data_len, data_shards);
        }
    }
    clamped - clamped % LEOPARD_SHARD_MULTIPLE
}

/// The aligned shard length holds the payload and no more than it needs: it
/// is a multiple of 64 and at least 64; the data shards (a zero count counts
/// as one) of that length have room for every payload byte; and one multiple
/// of 64 less would not have room, unless the length is the minimum 64. This
/// holds whenever such a length fits in a `usize`: with two data shards or
/// more always, with one when the payload leaves 63 bytes of room.
pub proof fn lemma_aligned_shard_len_holds_payload(data_len: usize, data_shards: usize)
    requires
        data_shards >= 2 || data_len as int + 63 <= usize::MAX,
    ensures
        ({
            let r = leopard_aligned_shard_len_spec(data_len, data_shards);
            let s = if data_shards == 0 { 1int } else { data_shards as int };
            &&& r % 64 == 0
            &&& r >= 64
            &&& r * s >= data_len
            &&& r == 64 || (r - 64) * s < data_len
        }),
{
    let s = if data_shards == 0 { 1int } else { data_shards as int };
    let n = data_len as int;
    let c = ceil_div(n, s);
    assert(c * s >= n && (c - 1) * s < n || (n == 0 && c == 0)) by (nonlinear_arith)
        requires
            s >= 1,
            n >= 0,
            c == n / s + if n % s == 0 { 0int } else { 1int },
    ;
    assert(0 <= c <= n) by (nonlinear_arith)
        requires
            s >= 1,
            n >= 0,
            c == n / s + if n % s == 0 { 0int } else { 1int },
    ;
    if s >= 2 {
        assert(c <= n / 2 + 1) by (nonlinear_arith)
            requires
                s >= 2,
                n >= 0,
                c == n / s + if n % s == 0 { 0int } else { 1int },
        ;
        assert(n <= usize::MAX);
    }
    let up = round_up_64(c);
    assert(up % 64 == 0 && up >= c && up - 64 < c);
    assert(up <= usize::MAX);
    let r = leopard_aligned_shard_len_spec(data_len, data_shards);
    if up < 64 {
        assert(r == 64);
        assert(c <= 0 || up >= 64);
        assert(64 * s >= n) by (nonlinear_arith)
            requires
                c * s >= n || n == 0,
                c <= 0,
                s >= 1,
        ;
    } else {
        assert(r == up);
        assert(up * s >= c * s) by (nonlinear_arith)
            requires
                up >= c,
                s >= 1,
        ;
        assert((up - 64) * s <= (c - 1) * s) by (nonlinear_arith)
            requires
                up - 64 <= c - 1,
                s >= 1,
        ;
    }
}

/// Checks that a shard length is a non-zero multiple of 64.
pub fn validate_leopard_shard_len(shard_len: usize) -> (r: Result<(), Error>)
    ensures
        r == if shard_len == 0 || shard_len % 64 != 0 {
            Err::<(), Error>(Error::IncorrectShardSize)
        } else {
            Ok(())
        },
{
    if shard_len == 0 || shard_len % LEOPARD_SHARD_MULTIPLE != 0 {
        return Err(Error::IncorrectShardSize);
    }
    Ok(())
}

/// The family a codec builds for a request. Only a Classic request on a
/// byte-oriented field is eligible for automatic Leopard selection.
pub open spec fn resolve_codec_family_spec(
    requested: CodecFamily,
    mode: LeopardMode,
    is_byte_field: bool,
    total_shards: usize,
    parity_shards: usize,
) -> CodecFamily {
    if requested != CodecFamily::Classic || !is_byte_field {
        requested
    } else {
        match mode {
            LeopardMode::Disabled => CodecFamily::Classic,
            LeopardMode::AsNeeded => if total_shards <= 256 {
                CodecFamily::Classic
            } else {
                CodecFamily::LeopardGF16
            },
            LeopardMode::PreferGF16 => CodecFamily::LeopardGF16,
            LeopardMode::PreferLeopard => if total_shards <= 256 && parity_shards <= 128 {
                CodecFamily::LeopardGF8
            } else {
                CodecFamily::LeopardGF16
            },
        }
    }
}

/// Resolves the effective codec family for an optional Leopard mode.
pub fn resolve_codec_family(
    requested: CodecFamily,
    mode: LeopardMode,
    is_byte_field: bool,
    total_shards: usize,
    parity_shards: usize,
) -> (r: CodecFamily)
    ensures
        r == resolve_codec_family_spec(requested, mode, is_byte_field, total_shards, parity_shards),
{
    if requested != CodecFamily::Classic || !is_byte_field {
        return requested;
    }
    match mode {
        LeopardMode::Disabled => CodecFamily::Classic,
        LeopardMode::AsNeeded => {
            if total_shards <= LEOPARD_GF8_MAX_SHARDS {
                CodecFamily::Classic
            } else {
                CodecFamily::LeopardGF16
            }
        },
        LeopardMode::PreferGF16 => CodecFamily::LeopardGF16,
        LeopardMode::PreferLeopard => {
            if total_shards <= LEOPARD_GF8_MAX_SHARDS && parity_shards <= LEOPARD_GF8_MAX_PARITY {
                CodecFamily::LeopardGF8
            } else {
                CodecFamily::LeopardGF16
            }
        },
    }
}

/// Largest `data + parity` of a family; Classic is bounded by the field order.
pub fn max_total_shards_for_family(codec_family: CodecFamily, field_order: usize) -> (r: usize)
    ensures
        r == match codec_family {
            CodecFamily::Classic => field_order,
            CodecFamily::LeopardGF8 => 256,
            CodecFamily::LeopardGF16 => 65536,
        },
{
    match codec_family {
        CodecFamily::Classic => field_order,
        CodecFamily::LeopardGF8 => LEOPARD_GF8_MAX_SHARDS,
        CodecFamily::LeopardGF16 => LEOPARD_GF16_MAX_SHARDS,
    }
}

/// The smallest power of two at or above `n` reached by doubling from `p`.
pub open spec fn pow2_at_least(p: nat, n: nat) -> nat
    decreases (if p < n {
        n - p
    } else {
        0
    }),
{
    if p == 0 || p >= n {
        p
    } else {
        pow2_at_least(2 * p, n)
    }
}

/// The smallest power of two that is at least `n` (one for zero).
pub open spec fn next_power_of_two(n: nat) -> nat {
    pow2_at_least(1, n)
}

proof fn lemma_pow2_at_least_bounds(p: nat, n: nat)
    requires
        p > 0,
    ensures
        pow2_at_least(p, n) >= p,
        pow2_at_least(p, n) >= n,
        pow2_at_least(p, n) < 2 * n || pow2_at_least(p, n) == p,
    decreases (if p < n {
        n - p
    } else {
        0
    }),
{
    if p < n {
        lemma_pow2_at_least_bounds(2 * p, n);
    }
}

proof fn lemma_pow2_at_least_is_pow2(k: nat, n: nat)
    ensures
        exists|j: nat| #[trigger] pow2(j) == pow2_at_least(pow2(k), n),
    decreases (if pow2(k) < n {
        n - pow2(k)
    } else {
        0
    }),
{
    lemma_pow2_pos(k);
    if pow2(k) < n {
        lemma_pow2_unfold(k + 1);
        lemma_pow2_at_least_is_pow2(k + 1, n);
    } else {
        assert(pow2(k) == pow2_at_least(pow2(k), n));
    }
}

/// `next_power_of_two(n)` is the power of two that `n` rounds up to: a power
/// of two, at least `n` and at least one, and less than `2 * n` once `n` is
/// positive, which leaves one candidate.
pub proof fn lemma_next_power_of_two_law(n: nat)
    ensures
        exists|j: nat| #[trigger] pow2(j) == next_power_of_two(n),
        next_power_of_two(n) >= n,
        next_power_of_two(n) >= 1,
        n >= 1 ==> next_power_of_two(n) < 2 * n,
{
    lemma2_to64();
    lemma_pow2_at_least_is_pow2(0, n);
    lemma_pow2_at_least_bounds(1, n);
}

/// `ceil_div(a, b)` is the least count of `b`-sized parts that covers `a`.
pub proof fn lemma_ceil_div_law(a: int, b: int)
    requires
        a >= 0,
        b > 0,
    ensures
        ceil_div(a, b) >= 0,
        ceil_div(a, b) * b >= a,
        a > 0 ==> (ceil_div(a, b) - 1) * b < a,
        a == 0 ==> ceil_div(a, b) == 0,
{
    let c = ceil_div(a, b);
    assert(c >= 0 && c * b >= a && (a > 0 ==> (c - 1) * b < a) && (a == 0 ==> c == 0)) by (nonlinear_arith)
        requires
            a >= 0,
            b > 0,
            c == a / b + if a % b == 0 { 0int } else { 1int },
    ;
}

/// The smallest power of two at least `n`, if it fits in a `usize`.
pub fn checked_next_power_of_two(n: usize) -> (r: Option<usize>)
    ensures
        r == if next_power_of_two(n as nat) <= usize::MAX {
            Some(next_power_of_two(n as nat) as usize)
        } else {
            None::<usize>
        },
        r matches Some(v) ==> v >= n && v >= 1 && (n >= 1 ==> v < 2 * n) && exists|j: nat| #[trigger] pow2(j) == v,
{
    proof {
        lemma_next_power_of_two_law(n as nat);
    }
    let mut p: usize = 1;
    while p < n
        invariant
            p > 0,
            pow2_at_least(p as nat, n as nat) == next_power_of_two(n as nat),
        decreases (if p < n {
            n - p
        } else {
            0
        }),
    {
        if p > usize::MAX / 2 {
            proof {
                lemma_pow2_at_least_bounds(2 * p as nat, n as nat);
            }
            return None;
        }
        p = p * 2;
    }
    Some(p)
}

/// Whether `data_shards` and `parity_shards` fit a Leopard field of `order` elements:
/// with `m` the parity count rounded up to a power of two, the data count rounded
/// up to a multiple of `m` must fit in `order - m`.
pub open spec fn leopard_shard_combo_fits_spec(data_shards: usize, parity_shards: usize, order: usize) -> bool {
    let m = next_power_of_two(parity_shards as nat);
    &&& m <= usize::MAX
    &&& data_shards != 0
    &&& parity_shards != 0
    &&& m <= order
    &&& ceil_div(data_shards as int, m as int) * m <= usize::MAX
    &&& ceil_div(data_shards as int, m as int) * m <= order - m
}

/// A shard combination that fits a Leopard field still fits with fewer data
/// shards, and in a larger field; one that fits leaves room for the data,
/// padded to a multiple of the parity count rounded up to a power of two,
/// beside that many parity positions.
pub proof fn lemma_shard_combo_fits_law(data_shards: usize, parity_shards: usize, order: usize, fewer: usize, larger: usize)
    requires
        leopard_shard_combo_fits_spec(data_shards, parity_shards, order),
        1 <= fewer <= data_shards,
        order <= larger,
    ensures
        leopard_shard_combo_fits_spec(fewer, parity_shards, order),
        leopard_shard_combo_fits_spec(data_shards, parity_shards, larger),
        data_shards + next_power_of_two(parity_shards as nat) <= order,
        parity_shards <= next_power_of_two(parity_shards as nat) <= order,
{
    let m = next_power_of_two(parity_shards as nat) as int;
    lemma_next_power_of_two_law(parity_shards as nat);
    let c = ceil_div(data_shards as int, m);
    let c2 = ceil_div(fewer as int, m);
    lemma_ceil_div_law(data_shards as int, m);
    lemma_ceil_div_law(fewer as int, m);
    assert(c2 <= c) by (nonlinear_arith)
        requires
            c2 * m >= fewer,
            (c2 - 1) * m < fewer,
            c * m >= data_shards,
            fewer <= data_shards,
            m >= 1,
            fewer >= 1,
    ;
    assert(c2 * m <= c * m) by (nonlinear_arith)
        requires
            c2 <= c,
            m >= 1,
    ;
}

/// Checks the Leopard shard-count constraint.
pub fn leopard_shard_combo_fits(data_shards: usize, parity_shards: usize, order: usize) -> (r: bool)
    ensures
        r == leopard_shard_combo_fits_spec(data_shards, parity_shards, order),
{
    let m = match checked_next_power_of_two(parity_shards) {
        Some(m) => m,
        None => return false,
    };
    proof {
        lemma_pow2_at_least_bounds(1, parity_shards as nat);
    }
    if data_shards == 0 || parity_shards == 0 || m == 0 || m > order {
        return false;
    }
    let rounded = match div_ceil(data_shards, m).checked_mul(m) {
        Some(v) => v,
        None => return false,
    };
    rounded <= order - m
}

/// The GF(2^8) Leopard family needs a byte-oriented field and a fitting shard combination.
pub fn validate_leopard_gf8(data_shards: usize, parity_shards: usize, is_byte_field: bool) -> (r:
    Result<(), Error>)
    ensures
        r == if !is_byte_field {
            Err::<(), Error>(Error::UnsupportedCodecFamily)
        } else if !leopard_shard_combo_fits_spec(data_shards, parity_shards, 256) {
            Err(Error::TooManyShards)
        } else {
            Ok(())
        },
{
    if !is_byte_field {
        return Err(Error::UnsupportedCodecFamily);
    }
    if !leopard_shard_combo_fits(data_shards, parity_shards, LEOPARD_GF8_MAX_SHARDS) {
        return Err(Error::TooManyShards);
    }
    Ok(())
}

/// The GF(2^16) Leopard family also needs a little-endian target.
pub fn validate_leopard_gf16(
    data_shards: usize,
    parity_shards: usize,
    is_byte_field: bool,
    big_endian: bool,
) -> (r: Result<(), Error>)
    ensures
        r == if !is_byte_field || big_endian {
            Err::<(), Error>(Error::UnsupportedCodecFamily)
        } else if !leopard_shard_combo_fits_spec(data_shards, parity_shards, 65536) {
            Err(Error::TooManyShards)
        } else {
            Ok(())
        },
{
    if !is_byte_field {
        return Err(Error::UnsupportedCodecFamily);
    }
    if big_endian {
        return Err(Error::UnsupportedCodecFamily);
    }
    if !leopard_shard_combo_fits(data_shards, parity_shards, LEOPARD_GF16_MAX_SHARDS) {
        return Err(Error::TooManyShards);
    }
    Ok(())
}

/// Checks the preconditions of a family; Classic has none.
pub fn validate_leopard_family(
    codec_family: CodecFamily,
    data_shards: usize,
    parity_shards: usize,
    is_byte_field: bool,
    big_endian: bool,
) -> (r: Result<(), Error>)
    ensures
        codec_family == CodecFamily::Classic ==> r == Ok::<(), Error>(()),
        codec_family == CodecFamily::LeopardGF8 ==> r == if !is_byte_field {
            Err::<(), Error>(Error::UnsupportedCodecFamily)
        } else if !leopard_shard_combo_fits_spec(data_shards, parity_shards, 256) {
            Err(Error::TooManyShards)
        } else {
            Ok(())
        },
        codec_family == CodecFamily::LeopardGF16 ==> r == if !is_byte_field || big_endian {
            Err::<(), Error>(Error::UnsupportedCodecFamily)
        } else if !leopard_shard_combo_fits_spec(data_shards, parity_shards, 65536) {
            Err(Error::TooManyShards)
        } else {
            Ok(())
        },
{
    match codec_family {
        CodecFamily::Classic => Ok(()),
        CodecFamily::LeopardGF8 => validate_leopard_gf8(data_shards, parity_shards, is_byte_field),
        CodecFamily::LeopardGF16 => validate_leopard_gf16(
            data_shards,
            parity_shards,
            is_byte_field,
            big_endian,
        ),
    }
}

} // verus!
