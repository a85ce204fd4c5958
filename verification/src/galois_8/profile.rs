//! Settings of the NEON slice-multiply schedule.
use vstd::prelude::*;
use vstd::string::StringSliceAdditionalSpecFns;

use super::backend::str_equal;

verus! {

/// Name of the setting that chooses the unroll factor of the NEON
/// multiply-accumulate loop.
pub const RS_NEON_MUL_SLICE_XOR_SCHEDULE_ENV: &'static str = "RS_NEON_MUL_SLICE_XOR_SCHEDULE";

/// The unroll factor a setting names: two or four, nothing else.
pub open spec fn parse_rust_neon_xor_unroll_spec(value: &str) -> Option<usize> {
    if value.spec_bytes() == "2".spec_bytes() {
        Some(2usize)
    } else if value.spec_bytes() == "4".spec_bytes() {
        Some(4usize)
    } else {
        None
    }
}

/// Parses the unroll factor setting.
pub fn parse_rust_neon_xor_unroll(value: &str) -> (r: Option<usize>)
    ensures
        r == parse_rust_neon_xor_unroll_spec(value),
{
    if str_equal(value, "2") {
        Some(2)
    } else if str_equal(value, "4") {
        Some(4)
    } else {
        None
    }
}

} // verus!
