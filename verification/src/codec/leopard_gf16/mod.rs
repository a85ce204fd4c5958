//! Leopard-style Reed-Solomon over GF(2^16): transform plans.
use vstd::prelude::*;

use crate::codec::leopard::{checked_next_power_of_two, next_power_of_two};
use crate::codec::leopard_plan::{FftPlan, IfftPlan, build_fft_decode_plan, build_fft_plan, build_ifft_plan, fft_decode_plan_pre, fft_decode_plan_spec, fft_plan_pre, fft_plan_spec, ifft_plan_pre, ifft_plan_spec};

verus! {

/// Bits per element.
pub const BITWIDTH16: usize = 16;

/// Number of field elements.
pub const ORDER16: usize = 65536;

/// Order of the multiplicative group; also the logarithm that stands for zero.
pub const MODULUS16: usize = 65535;

/// The forward plan over GF(2^16).
pub type FftDit16Plan = FftPlan<u16>;

/// The inverse plan over GF(2^16).
pub type IfftDit16Plan = IfftPlan<u16>;

/// The encoder's forward plan: radix-4 blocks reading `skew_lut` one before
/// each group quarter ends (see `fft_plan_spec`).
pub fn build_fft_dit16_plan(mtrunc: usize, m: usize, skew_lut: &[u16; 65535]) -> (plan: FftDit16Plan)
    requires
        fft_plan_pre(mtrunc, m, 65535),
    ensures
        plan.mtrunc == mtrunc,
        (plan.stage4_blocks@, plan.final_stage@) == fft_plan_spec(mtrunc, m, skew_lut@),
{
    build_fft_plan(mtrunc, m, skew_lut.as_slice())
}

/// The decoder's forward plan over `n` positions: one radix-4 block per
/// element of every group (see `fft_decode_plan_spec`).
pub fn build_fft_decode_dit16_plan(mtrunc: usize, n: usize, skew_lut: &[u16; 65535]) -> (plan: FftDit16Plan)
    requires
        fft_decode_plan_pre(mtrunc, n, 65535),
    ensures
        plan.mtrunc == mtrunc,
        (plan.stage4_blocks@, plan.final_stage@) == fft_decode_plan_spec(mtrunc, n, skew_lut@),
{
    build_fft_decode_plan(mtrunc, n, skew_lut.as_slice())
}

/// The encoder's inverse plan, reading `skew_lut` at the group quarter ends.
pub fn build_ifft_dit16_plan(mtrunc: usize, m: usize, skew_lut: &[u16]) -> (plan: IfftDit16Plan)
    requires
        ifft_plan_pre(mtrunc, m, skew_lut@.len() as int, 0),
    ensures
        plan.mtrunc == mtrunc,
        plan.m == m,
        (plan.initial_blocks@, plan.later_blocks@, plan.clear_start as int, plan.final_stage)
            == ifft_plan_spec(mtrunc, m, skew_lut@, 0),
{
    build_ifft_plan(mtrunc, m, skew_lut, 0)
}

/// The decoder's inverse plan, reading the whole skew table one before the
/// group quarter ends.
pub fn build_ifft_decode_dit16_plan(mtrunc: usize, m: usize, skew_lut: &[u16; 65535]) -> (plan: IfftDit16Plan)
    requires
        ifft_plan_pre(mtrunc, m, 65535, 1),
    ensures
        plan.mtrunc == mtrunc,
        plan.m == m,
        (plan.initial_blocks@, plan.later_blocks@, plan.clear_start as int, plan.final_stage)
            == ifft_plan_spec(mtrunc, m, skew_lut@, 1),
{
    build_ifft_plan(mtrunc, m, skew_lut.as_slice(), 1)
}

/// The smallest power of two at least `n`.
pub fn ceil_pow2(n: usize) -> (r: usize)
    requires
        next_power_of_two(n as nat) <= usize::MAX,
    ensures
        r == next_power_of_two(n as nat),
{
    match checked_next_power_of_two(n) {
        Some(p) => p,
        None => 0,
    }
}

} // verus!
