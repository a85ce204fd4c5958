//! The byte constants that the GFNI kernels load: the affine matrix that maps
//! the library's field onto the one GFNI multiplies in, and broadcast
//! coefficients.
use vstd::prelude::*;

verus! {

/// Rows of the 8x8 bit matrix of the field isomorphism, row 0 first.
pub const GFNI_ISOMORPHISM_ROWS: [u8; 8] = [0xff, 0xaa, 0xcc, 0x88, 0xf0, 0xa0, 0xc0, 0x80];

/// The isomorphism matrix as one little-endian 64-bit word (row 7 in the
/// lowest byte), repeated for both 64-bit lanes of a 128-bit register.
pub fn gfni_isomorphism_bytes() -> (r: [u8; 16])
    ensures
        forall|i: int| 0 <= i < 8 ==> #[trigger] r@[i] == GFNI_ISOMORPHISM_ROWS@[7 - i] && r@[i + 8]
            == GFNI_ISOMORPHISM_ROWS@[7 - i],
{
    let word: [u8; 8] = [
        GFNI_ISOMORPHISM_ROWS[7],
        GFNI_ISOMORPHISM_ROWS[6],
        GFNI_ISOMORPHISM_ROWS[5],
        GFNI_ISOMORPHISM_ROWS[4],
        GFNI_ISOMORPHISM_ROWS[3],
        GFNI_ISOMORPHISM_ROWS[2],
        GFNI_ISOMORPHISM_ROWS[1],
        GFNI_ISOMORPHISM_ROWS[0],
    ];
    let bytes: [u8; 16] = [
        word[0], word[1], word[2], word[3], word[4], word[5], word[6], word[7],
        word[0], word[1], word[2], word[3], word[4], word[5], word[6], word[7],
    ];
    bytes
}

/// The coefficient broadcast to every byte of a 256-bit register.
pub fn coeff_table_avx2(c: u8) -> (r: [u8; 32])
    ensures
        forall|i: int| 0 <= i < 32 ==> #[trigger] r@[i] == c,
{
    [c; 32]
}

/// The coefficient broadcast to every byte of a 512-bit register.
pub fn coeff_table_avx512(c: u8) -> (r: [u8; 64])
    ensures
        forall|i: int| 0 <= i < 64 ==> #[trigger] r@[i] == c,
{
    [c; 64]
}

/// The constants of a GFNI+AVX2 multiply by `c`.
pub fn gfni_avx2_constant_bytes(c: u8) -> (r: ([u8; 16], [u8; 32]))
    ensures
        forall|i: int| 0 <= i < 8 ==> #[trigger] r.0@[i] == GFNI_ISOMORPHISM_ROWS@[7 - i] && r.0@[i + 8]
            == GFNI_ISOMORPHISM_ROWS@[7 - i],
        forall|i: int| 0 <= i < 32 ==> #[trigger] r.1@[i] == c,
{
    let iso = gfni_isomorphism_bytes();
    let coeff = coeff_table_avx2(c);
    assert forall|i: int| 0 <= i < 8 implies #[trigger] iso@[i] == GFNI_ISOMORPHISM_ROWS@[7 - i] && iso@[i
        + 8] == GFNI_ISOMORPHISM_ROWS@[7 - i] by {
        assert(iso@[i] == GFNI_ISOMORPHISM_ROWS@[7 - i]);
    }
    (iso, coeff)
}

/// The constants of a GFNI+AVX-512 multiply by `c`.
pub fn gfni_avx512_constant_bytes(c: u8) -> (r: ([u8; 16], [u8; 64]))
    ensures
        forall|i: int| 0 <= i < 8 ==> #[trigger] r.0@[i] == GFNI_ISOMORPHISM_ROWS@[7 - i] && r.0@[i + 8]
            == GFNI_ISOMORPHISM_ROWS@[7 - i],
        forall|i: int| 0 <= i < 64 ==> #[trigger] r.1@[i] == c,
{
    let iso = gfni_isomorphism_bytes();
    let coeff = coeff_table_avx512(c);
    assert forall|i: int| 0 <= i < 8 implies #[trigger] iso@[i] == GFNI_ISOMORPHISM_ROWS@[7 - i] && iso@[i
        + 8] == GFNI_ISOMORPHISM_ROWS@[7 - i] by {
        assert(iso@[i] == GFNI_ISOMORPHISM_ROWS@[7 - i]);
    }
    (iso, coeff)
}

} // verus!
