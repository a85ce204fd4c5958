//! Leopard-style Reed-Solomon over GF(2^8): table types, transform plans and
//! run-time counters.
use vstd::prelude::*;

pub mod ops;

use crate::codec::leopard::{checked_next_power_of_two, next_power_of_two};
use crate::codec::leopard_plan::{FftPlan, IfftPlan, build_fft_plan, build_ifft_plan, fft_plan_pre, fft_plan_spec, ifft_plan_pre, ifft_plan_spec};

verus! {

/// Bits per element.
pub const BITWIDTH8: usize = 8;

/// Number of field elements.
pub const ORDER8: usize = 256;

/// Order of the multiplicative group; also the logarithm that stands for zero.
pub const MODULUS8: usize = 255;

/// Multiplication by one fixed element, as a full table and its nibble halves.
#[derive(Debug, Clone, Copy, PartialEq, Eq)]
pub struct Mul8Lut {
    pub value: [u8; 256],
    /// `low[i] == value[i]` for `i < 16`.
    pub low: [u8; 16],
    /// `high[i] == value[16 * i]` for `i < 16`.
    pub high: [u8; 16],
}

/// The nibble halves agree with the full table.
pub open spec fn mul8_lut_wf(lut: Mul8Lut) -> bool {
    forall|i: int| 0 <= i < 16 ==> #[trigger] lut.low@[i] == lut.value@[i] && lut.high@[i] == lut.value@[16 * i]
}

/// The precomputed tables of the transforms.
#[derive(Debug)]
pub struct LeopardGf8Tables {
    pub fft_skew: [u8; 255],
    pub log_walsh: [u8; 256],
    pub log_lut: [u8; 256],
    pub exp_lut: [u8; 256],
    pub mul_luts: Vec<Mul8Lut>,
}

/// One multiplier table for every logarithm, each consistent with its halves.
pub open spec fn tables_wf(t: &LeopardGf8Tables) -> bool {
    &&& t.mul_luts@.len() == 256
    &&& forall|i: int| 0 <= i < 256 ==> mul8_lut_wf(#[trigger] t.mul_luts@[i])
}

/// The forward plan over GF(2^8).
pub type FftDit8Plan = FftPlan<u8>;

/// The inverse plan over GF(2^8).
pub type IfftDit8Plan = IfftPlan<u8>;

/// The encoder's forward plan: radix-4 blocks reading `skew_lut` one before
/// each group quarter ends (see `fft_plan_spec`).
pub fn build_fft_dit8_plan(mtrunc: usize, m: usize, skew_lut: &[u8; 255]) -> (plan: FftDit8Plan)
    requires
        fft_plan_pre(mtrunc, m, 255),
    ensures
        plan.mtrunc == mtrunc,
        (plan.stage4_blocks@, plan.final_stage@) == fft_plan_spec(mtrunc, m, skew_lut@),
{
    build_fft_plan(mtrunc, m, skew_lut.as_slice())
}

/// The encoder's inverse plan, reading `skew_lut` at the group quarter ends
/// (the encoder passes the skew table from `m - 1` on).
pub fn build_ifft_dit8_plan(mtrunc: usize, m: usize, skew_lut: &[u8]) -> (plan: IfftDit8Plan)
    requires
        ifft_plan_pre(mtrunc, m, skew_lut@.len() as int, 0),
    ensures
        plan.mtrunc == mtrunc,
        plan.m == m,
        (plan.initial_blocks@, plan.later_blocks@, plan.clear_start as int, plan.final_stage)
            == ifft_plan_spec(mtrunc, m, skew_lut@, 0),
{
    build_ifft_plan(mtrunc, m, skew_lut, 0)
}

/// The decoder's inverse plan, reading the whole skew table one before the
/// group quarter ends.
pub fn build_ifft_decode_dit8_plan(mtrunc: usize, m: usize, skew_lut: &[u8; 255]) -> (plan: IfftDit8Plan)
    requires
        ifft_plan_pre(mtrunc, m, 255, 1),
    ensures
        plan.mtrunc == mtrunc,
        plan.m == m,
        (plan.initial_blocks@, plan.later_blocks@, plan.clear_start as int, plan.final_stage)
            == ifft_plan_spec(mtrunc, m, skew_lut@, 1),
{
    build_ifft_plan(mtrunc, m, skew_lut.as_slice(), 1)
}

/// The smallest power of two at least `n`.
pub fn ceil_pow2(n: usize) -> (r: usize)
    requires
        next_power_of_two(n as nat) <= usize::MAX,
    ensures
        r == next_power_of_two(n as nat),
{
    match checked_next_power_of_two(n) {
        Some(p) => p,
        None => 0,
    }
}

/// The phase of an encode that an inverse transform serves.
#[derive(Debug, Clone, Copy, PartialEq, Eq, Structural)]
pub enum IfftProfilePhase {
    FirstGroup,
    LaterGroup,
    RemainderGroup,
}

/// `a + b`, wrapping around past `usize::MAX` as an atomic counter does.
pub open spec fn wadd(a: usize, b: usize) -> usize {
    if a + b <= usize::MAX {
        (a + b) as usize
    } else {
        (a + b - usize::MAX - 1) as usize
    }
}

fn wrapping_inc(a: usize, b: usize) -> (r: usize)
    ensures
        r == wadd(a, b),
{
    if a <= usize::MAX - b {
        a + b
    } else {
        b - (usize::MAX - a) - 1
    }
}

/// Run-time counters of the GF(2^8) Leopard encoder.
#[derive(Debug, Default)]
pub struct LeopardGf8ProfileMetrics {
    pub encode_calls: usize,
    pub encode_chunks: usize,
    pub encode_full_groups: usize,
    pub encode_remainder_groups: usize,
    pub encode_later_group_calls: usize,
    pub fft_stage_calls: usize,
    pub ifft_stage_calls: usize,
    pub first_group_ifft_calls: usize,
    pub later_group_ifft_calls: usize,
    pub remainder_group_ifft_calls: usize,
    pub first_group_input_copy_bytes: usize,
    pub later_group_input_copy_bytes: usize,
    pub remainder_group_input_copy_bytes: usize,
    pub first_group_zero_fill_bytes: usize,
    pub later_group_zero_fill_bytes: usize,
    pub remainder_group_zero_fill_bytes: usize,
    pub later_group_xor_bytes: usize,
    pub remainder_group_xor_bytes: usize,
    pub output_writeback_calls: usize,
    pub input_copy_bytes: usize,
    pub zero_fill_bytes: usize,
    pub xor_bytes: usize,
    pub output_writeback_bytes: usize,
}

/// A snapshot of the GF(2^8) Leopard encoder counters.
#[derive(Debug, Clone, Copy, PartialEq, Eq)]
pub struct LeopardGf8ProfileStats {
    pub encode_calls: usize,
    pub encode_chunks: usize,
    pub encode_full_groups: usize,
    pub encode_remainder_groups: usize,
    pub encode_later_group_calls: usize,
    pub fft_stage_calls: usize,
    pub ifft_stage_calls: usize,
    pub first_group_ifft_calls: usize,
    pub later_group_ifft_calls: usize,
    pub remainder_group_ifft_calls: usize,
    pub first_group_input_copy_bytes: usize,
    pub later_group_input_copy_bytes: usize,
    pub remainder_group_input_copy_bytes: usize,
    pub first_group_zero_fill_bytes: usize,
    pub later_group_zero_fill_bytes: usize,
    pub remainder_group_zero_fill_bytes: usize,
    pub later_group_xor_bytes: usize,
    pub remainder_group_xor_bytes: usize,
    pub output_writeback_calls: usize,
    pub input_copy_bytes: usize,
    pub zero_fill_bytes: usize,
    pub xor_bytes: usize,
    pub output_writeback_bytes: usize,
}

/// Every counter of the snapshot equals the counter it was read from.
pub open spec fn stats_match(s: LeopardGf8ProfileStats, m: LeopardGf8ProfileMetrics) -> bool {
    s.encode_calls == m.encode_calls && s.encode_chunks == m.encode_chunks && s.encode_full_groups == m.encode_full_groups && s.encode_remainder_groups == m.encode_remainder_groups && s.encode_later_group_calls == m.encode_later_group_calls && s.fft_stage_calls == m.fft_stage_calls && s.ifft_stage_calls == m.ifft_stage_calls && s.first_group_ifft_calls == m.first_group_ifft_calls && s.later_group_ifft_calls == m.later_group_ifft_calls && s.remainder_group_ifft_calls == m.remainder_group_ifft_calls && s.first_group_input_copy_bytes == m.first_group_input_copy_bytes && s.later_group_input_copy_bytes == m.later_group_input_copy_bytes && s.remainder_group_input_copy_bytes == m.remainder_group_input_copy_bytes && s.first_group_zero_fill_bytes == m.first_group_zero_fill_bytes && s.later_group_zero_fill_bytes == m.later_group_zero_fill_bytes && s.remainder_group_zero_fill_bytes == m.remainder_group_zero_fill_bytes && s.later_group_xor_bytes == m.later_group_xor_bytes && s.remainder_group_xor_bytes == m.remainder_group_xor_bytes && s.output_writeback_calls == m.output_writeback_calls && s.input_copy_bytes == m.input_copy_bytes && s.zero_fill_bytes == m.zero_fill_bytes && s.xor_bytes == m.xor_bytes && s.output_writeback_bytes == m.output_writeback_bytes
}

/// Every counter is zero.
pub open spec fn metrics_zero(m: LeopardGf8ProfileMetrics) -> bool {
    m.encode_calls == 0 && m.encode_chunks == 0 && m.encode_full_groups == 0 && m.encode_remainder_groups == 0 && m.encode_later_group_calls == 0 && m.fft_stage_calls == 0 && m.ifft_stage_calls == 0 && m.first_group_ifft_calls == 0 && m.later_group_ifft_calls == 0 && m.remainder_group_ifft_calls == 0 && m.first_group_input_copy_bytes == 0 && m.later_group_input_copy_bytes == 0 && m.remainder_group_input_copy_bytes == 0 && m.first_group_zero_fill_bytes == 0 && m.later_group_zero_fill_bytes == 0 && m.remainder_group_zero_fill_bytes == 0 && m.later_group_xor_bytes == 0 && m.remainder_group_xor_bytes == 0 && m.output_writeback_calls == 0 && m.input_copy_bytes == 0 && m.zero_fill_bytes == 0 && m.xor_bytes == 0 && m.output_writeback_bytes == 0
}

impl LeopardGf8ProfileMetrics {
    /// All counters at zero.
    pub fn new() -> (r: Self)
        ensures
            metrics_zero(r),
    {
        LeopardGf8ProfileMetrics {
            encode_calls: 0,
            encode_chunks: 0,
            encode_full_groups: 0,
            encode_remainder_groups: 0,
            encode_later_group_calls: 0,
            fft_stage_calls: 0,
            ifft_stage_calls: 0,
            first_group_ifft_calls: 0,
            later_group_ifft_calls: 0,
            remainder_group_ifft_calls: 0,
            first_group_input_copy_bytes: 0,
            later_group_input_copy_bytes: 0,
            remainder_group_input_copy_bytes: 0,
            first_group_zero_fill_bytes: 0,
            later_group_zero_fill_bytes: 0,
            remainder_group_zero_fill_bytes: 0,
            later_group_xor_bytes: 0,
            remainder_group_xor_bytes: 0,
            output_writeback_calls: 0,
            input_copy_bytes: 0,
            zero_fill_bytes: 0,
            xor_bytes: 0,
            output_writeback_bytes: 0,
        }
    }

    /// Counts one inverse transform, in total and for its phase.
    pub fn add_ifft_calls(&mut self, phase: IfftProfilePhase)
        ensures
            final(self).ifft_stage_calls == wadd(old(self).ifft_stage_calls, 1),
            final(self).first_group_ifft_calls == if phase == IfftProfilePhase::FirstGroup {
                wadd(old(self).first_group_ifft_calls, 1)
            } else {
                old(self).first_group_ifft_calls
            },
            final(self).later_group_ifft_calls == if phase == IfftProfilePhase::LaterGroup {
                wadd(old(self).later_group_ifft_calls, 1)
            } else {
                old(self).later_group_ifft_calls
            },
            final(self).remainder_group_ifft_calls == if phase == IfftProfilePhase::RemainderGroup {
                wadd(old(self).remainder_group_ifft_calls, 1)
            } else {
                old(self).remainder_group_ifft_calls
            },
            final(self).input_copy_bytes == old(self).input_copy_bytes,
            final(self).zero_fill_bytes == old(self).zero_fill_bytes,
            final(self).xor_bytes == old(self).xor_bytes,
            final(self).output_writeback_calls == old(self).output_writeback_calls,
            final(self).output_writeback_bytes == old(self).output_writeback_bytes,
    {
        self.ifft_stage_calls = wrapping_inc(self.ifft_stage_calls, 1);
        match phase {
            IfftProfilePhase::FirstGroup => {
                self.first_group_ifft_calls = wrapping_inc(self.first_group_ifft_calls, 1);
            },
            IfftProfilePhase::LaterGroup => {
                self.later_group_ifft_calls = wrapping_inc(self.later_group_ifft_calls, 1);
            },
            IfftProfilePhase::RemainderGroup => {
                self.remainder_group_ifft_calls = wrapping_inc(self.remainder_group_ifft_calls, 1);
            },
        }
    }

    /// Counts bytes copied into the work buffer, in total and for the phase.
    pub fn add_input_copy_bytes(&mut self, phase: IfftProfilePhase, bytes: usize)
        ensures
            final(self).input_copy_bytes == wadd(old(self).input_copy_bytes, bytes),
            final(self).first_group_input_copy_bytes == if phase == IfftProfilePhase::FirstGroup {
                wadd(old(self).first_group_input_copy_bytes, bytes)
            } else {
                old(self).first_group_input_copy_bytes
            },
            final(self).later_group_input_copy_bytes == if phase == IfftProfilePhase::LaterGroup {
                wadd(old(self).later_group_input_copy_bytes, bytes)
            } else {
                old(self).later_group_input_copy_bytes
            },
            final(self).remainder_group_input_copy_bytes == if phase == IfftProfilePhase::RemainderGroup {
                wadd(old(self).remainder_group_input_copy_bytes, bytes)
            } else {
                old(self).remainder_group_input_copy_bytes
            },
            final(self).ifft_stage_calls == old(self).ifft_stage_calls,
            final(self).zero_fill_bytes == old(self).zero_fill_bytes,
            final(self).xor_bytes == old(self).xor_bytes,
    {
        self.input_copy_bytes = wrapping_inc(self.input_copy_bytes, bytes);
        match phase {
            IfftProfilePhase::FirstGroup => {
                self.first_group_input_copy_bytes = wrapping_inc(self.first_group_input_copy_bytes, bytes);
            },
            IfftProfilePhase::LaterGroup => {
                self.later_group_input_copy_bytes = wrapping_inc(self.later_group_input_copy_bytes, bytes);
            },
            IfftProfilePhase::RemainderGroup => {
                self.remainder_group_input_copy_bytes = wrapping_inc(self.remainder_group_input_copy_bytes, bytes);
            },
        }
    }

    /// Counts bytes zero-filled in the work buffer, in total and for the phase.
    pub fn add_zero_fill_bytes(&mut self, phase: IfftProfilePhase, bytes: usize)
        ensures
            final(self).zero_fill_bytes == wadd(old(self).zero_fill_bytes, bytes),
            final(self).first_group_zero_fill_bytes == if phase == IfftProfilePhase::FirstGroup {
                wadd(old(self).first_group_zero_fill_bytes, bytes)
            } else {
                old(self).first_group_zero_fill_bytes
            },
            final(self).later_group_zero_fill_bytes == if phase == IfftProfilePhase::LaterGroup {
                wadd(old(self).later_group_zero_fill_bytes, bytes)
            } else {
                old(self).later_group_zero_fill_bytes
            },
            final(self).remainder_group_zero_fill_bytes == if phase == IfftProfilePhase::RemainderGroup {
                wadd(old(self).remainder_group_zero_fill_bytes, bytes)
            } else {
                old(self).remainder_group_zero_fill_bytes
            },
            final(self).input_copy_bytes == old(self).input_copy_bytes,
            final(self).xor_bytes == old(self).xor_bytes,
    {
        self.zero_fill_bytes = wrapping_inc(self.zero_fill_bytes, bytes);
        match phase {
            IfftProfilePhase::FirstGroup => {
                self.first_group_zero_fill_bytes = wrapping_inc(self.first_group_zero_fill_bytes, bytes);
            },
            IfftProfilePhase::LaterGroup => {
                self.later_group_zero_fill_bytes = wrapping_inc(self.later_group_zero_fill_bytes, bytes);
            },
            IfftProfilePhase::RemainderGroup => {
                self.remainder_group_zero_fill_bytes = wrapping_inc(self.remainder_group_zero_fill_bytes, bytes);
            },
        }
    }

    /// Counts bytes folded in by XOR, in total and for the later and remainder
    /// phases (the first group folds nothing in on its own).
    pub fn add_xor_bytes(&mut self, phase: IfftProfilePhase, bytes: usize)
        ensures
            final(self).xor_bytes == wadd(old(self).xor_bytes, bytes),
            final(self).later_group_xor_bytes == if phase == IfftProfilePhase::LaterGroup {
                wadd(old(self).later_group_xor_bytes, bytes)
            } else {
                old(self).later_group_xor_bytes
            },
            final(self).remainder_group_xor_bytes == if phase == IfftProfilePhase::RemainderGroup {
                wadd(old(self).remainder_group_xor_bytes, bytes)
            } else {
                old(self).remainder_group_xor_bytes
            },
            final(self).input_copy_bytes == old(self).input_copy_bytes,
            final(self).zero_fill_bytes == old(self).zero_fill_bytes,
    {
        self.xor_bytes = wrapping_inc(self.xor_bytes, bytes);
        match phase {
            IfftProfilePhase::LaterGroup => {
                self.later_group_xor_bytes = wrapping_inc(self.later_group_xor_bytes, bytes);
            },
            IfftProfilePhase::RemainderGroup => {
                self.remainder_group_xor_bytes = wrapping_inc(self.remainder_group_xor_bytes, bytes);
            },
            IfftProfilePhase::FirstGroup => {
                return ;
            },
        }
    }

    /// Counts one write-back of outputs and its bytes.
    pub fn add_output_writeback(&mut self, bytes: usize)
        ensures
            final(self).output_writeback_calls == wadd(old(self).output_writeback_calls, 1),
            final(self).output_writeback_bytes == wadd(old(self).output_writeback_bytes, bytes),
            final(self).xor_bytes == old(self).xor_bytes,
            final(self).input_copy_bytes == old(self).input_copy_bytes,
    {
        self.output_writeback_calls = wrapping_inc(self.output_writeback_calls, 1);
        self.output_writeback_bytes = wrapping_inc(self.output_writeback_bytes, bytes);
    }
}

/// A snapshot of the counters.
pub fn leopard_gf8_profile_stats(metrics: &LeopardGf8ProfileMetrics) -> (r: LeopardGf8ProfileStats)
    ensures
        stats_match(r, *metrics),
{
    LeopardGf8ProfileStats {
        encode_calls: metrics.encode_calls,
        encode_chunks: metrics.encode_chunks,
        encode_full_groups: metrics.encode_full_groups,
        encode_remainder_groups: metrics.encode_remainder_groups,
        encode_later_group_calls: metrics.encode_later_group_calls,
        fft_stage_calls: metrics.fft_stage_calls,
        ifft_stage_calls: metrics.ifft_stage_calls,
        first_group_ifft_calls: metrics.first_group_ifft_calls,
        later_group_ifft_calls: metrics.later_group_ifft_calls,
        remainder_group_ifft_calls: metrics.remainder_group_ifft_calls,
        first_group_input_copy_bytes: metrics.first_group_input_copy_bytes,
        later_group_input_copy_bytes: metrics.later_group_input_copy_bytes,
        remainder_group_input_copy_bytes: metrics.remainder_group_input_copy_bytes,
        first_group_zero_fill_bytes: metrics.first_group_zero_fill_bytes,
        later_group_zero_fill_bytes: metrics.later_group_zero_fill_bytes,
        remainder_group_zero_fill_bytes: metrics.remainder_group_zero_fill_bytes,
        later_group_xor_bytes: metrics.later_group_xor_bytes,
        remainder_group_xor_bytes: metrics.remainder_group_xor_bytes,
        output_writeback_calls: metrics.output_writeback_calls,
        input_copy_bytes: metrics.input_copy_bytes,
        zero_fill_bytes: metrics.zero_fill_bytes,
        xor_bytes: metrics.xor_bytes,
        output_writeback_bytes: metrics.output_writeback_bytes,
    }
}

/// Sets every counter back to zero.
pub fn reset_leopard_gf8_profile_stats(metrics: &mut LeopardGf8ProfileMetrics)
    ensures
        metrics_zero(*final(metrics)),
{
    *metrics = LeopardGf8ProfileMetrics::new();
}

} // verus!
