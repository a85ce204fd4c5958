//! Primitive operations of the Leopard GF(2^8) transforms: arithmetic on
//! logarithms modulo 255, table-driven multiply-accumulate and butterflies.
use vstd::prelude::*;

use super::{LeopardGf8Tables, MODULUS8, tables_wf};
use crate::codec::leopard_plan::{decode_stage, ifft_last, lemma_shl2, span};

verus! {

/// Sum of two logarithms folded into `0..=255`, where 255 stands for 0 mod 255.
pub open spec fn add_mod8_spec(a: u8, b: u8) -> u8 {
    if a + b >= 256 {
        (a + b - 255) as u8
    } else {
        (a + b) as u8
    }
}

/// Difference of two logarithms folded into `0..=255`.
pub open spec fn sub_mod8_spec(a: u8, b: u8) -> u8 {
    if a >= b {
        (a - b) as u8
    } else {
        (a + 255 - b) as u8
    }
}

/// `log_b` added to the logarithm of `a`, looked up in the exponent table;
/// zero stays zero.
pub fn mul_log8(a: u8, log_b: u8, log_lut: &[u8; 256], exp_lut: &[u8; 256]) -> (r: u8)
    ensures
        a == 0 ==> r == 0,
        a != 0 ==> r == exp_lut@[add_mod8_spec(log_lut@[a as int], log_b) as int],
{
    if a == 0 {
        return 0;
    }
    exp_lut[add_mod8(log_lut[a as usize], log_b) as usize]
}

/// Adds two logarithms modulo 255.
pub fn add_mod8(a: u8, b: u8) -> (r: u8)
    ensures
        r == add_mod8_spec(a, b),
        r as int % 255 == (a + b) % 255,
{
    let sum = a as usize + b as usize;
    assert(sum >> 8usize <= 1usize) by (bit_vector)
        requires
            sum < 511usize,
    ;
    let r = (sum + (sum >> 8usize)) as u8;
    proof {
        assert((sum + (sum >> 8usize)) as u8 == if sum >= 256 {
            (sum - 255) as u8
        } else {
            sum as u8
        }) by (bit_vector)
            requires
                sum < 511,
        ;
    }
    r
}

/// Subtracts two logarithms modulo 255.
pub fn sub_mod8(a: u8, b: u8) -> (r: u8)
    ensures
        r == sub_mod8_spec(a, b),
        r as int % 255 == (a - b) % 255,
{
    // The borrow of the wrapped difference runs into the high bits; adding
    // them back folds it into the low byte modulo 255.
    let dif = (a as u16).wrapping_sub(b as u16);
    let r = (dif.wrapping_add(dif >> 8u16)) as u8;
    proof {
        let x = a as u16;
        let y = b as u16;
        assert(x < 256u16 && y < 256u16);
        assert(((x.wrapping_sub(y)).wrapping_add(x.wrapping_sub(y) >> 8u16)) as u8 == (if x >= y {
            (x - y) as u8
        } else {
            (x + 255 - y) as u8
        })) by (bit_vector)
            requires
                x < 256u16,
                y < 256u16,
        ;
    }
    r
}

/// The two outputs of a Walsh-Hadamard butterfly on logarithms.
pub fn fwht2_alt8(a: u8, b: u8) -> (r: (u8, u8))
    ensures
        r == (add_mod8_spec(a, b), sub_mod8_spec(a, b)),
{
    (add_mod8(a, b), sub_mod8(a, b))
}

/// `out[i] ^= input[i]` for every `i`.
pub fn slice_xor(input: &[u8], out: &mut [u8])
    requires
        input@.len() == old(out)@.len(),
    ensures
        final(out)@.len() == old(out)@.len(),
        forall|i: int| 0 <= i < input@.len() ==> #[trigger] final(out)@[i] == old(out)@[i] ^ input@[i],
{
    let n = out.len();
    let mut i: usize = 0;
    while i < n
        invariant
            n == out@.len(),
            n == input@.len(),
            i <= n,
            forall|j: int| 0 <= j < i ==> #[trigger] out@[j] == old(out)@[j] ^ input@[j],
            forall|j: int| i <= j < n ==> #[trigger] out@[j] == old(out)@[j],
        decreases n - i,
    {
        let v = out[i] ^ input[i];
        out[i] = v;
        i = i + 1;
    }
}

/// `dst[i] ^= lut[src[i]]` for every `i`, with the nibble halves of the
/// table at hand for wide lookups.
pub fn lut_xor_prebuilt(dst: &mut [u8], src: &[u8], low: &[u8; 16], high: &[u8; 16], lut: &[u8; 256])
    requires
        old(dst)@.len() == src@.len(),
    ensures
        final(dst)@.len() == old(dst)@.len(),
        forall|i: int|
            0 <= i < src@.len() ==> #[trigger] final(dst)@[i] == old(dst)@[i] ^ lut@[src@[i] as int],
{
    lut_xor_impl(dst, src, low, high, lut)
}

fn lut_xor_impl(dst: &mut [u8], src: &[u8], low: &[u8; 16], high: &[u8; 16], lut: &[u8; 256])
    requires
        old(dst)@.len() == src@.len(),
    ensures
        final(dst)@.len() == old(dst)@.len(),
        forall|i: int|
            0 <= i < src@.len() ==> #[trigger] final(dst)@[i] == old(dst)@[i] ^ lut@[src@[i] as int],
{
    let n = dst.len();
    let mut i: usize = 0;
    while i < n
        invariant
            n == dst@.len(),
            n == src@.len(),
            i <= n,
            forall|j: int| 0 <= j < i ==> #[trigger] dst@[j] == old(dst)@[j] ^ lut@[src@[j] as int],
            forall|j: int| i <= j < n ==> #[trigger] dst@[j] == old(dst)@[j],
        decreases n - i,
    {
        let v = dst[i] ^ lut[src[i] as usize];
        dst[i] = v;
        i = i + 1;
    }
}

/// `out[i] = exp(log_m) * input[i]`, read from the table for `log_m`.
pub fn mulgf8(out: &mut [u8], input: &[u8], log_m: u8, tables: &LeopardGf8Tables)
    requires
        tables_wf(tables),
        input@.len() == old(out)@.len(),
    ensures
        final(out)@.len() == old(out)@.len(),
        forall|i: int|
            0 <= i < input@.len() ==> #[trigger] final(out)@[i] == tables.mul_luts@[log_m as int].value@[input@[i] as int],
{
    let lut = &tables.mul_luts[log_m as usize];
    let n = out.len();
    let mut i: usize = 0;
    while i < n
        invariant
            n == out@.len(),
            n == input@.len(),
            i <= n,
            *lut == tables.mul_luts@[log_m as int],
            forall|j: int| 0 <= j < i ==> #[trigger] out@[j] == lut.value@[input@[j] as int],
        decreases n - i,
    {
        out[i] = lut.value[input[i] as usize];
        i = i + 1;
    }
}

/// One element of a forward butterfly: `x ^= m * y; y ^= x`, where the
/// multiplication is skipped for the logarithm 255 (the zero multiplier).
pub open spec fn dit2_fwd(x: u8, y: u8, log_m: u8, lut: Seq<u8>) -> (u8, u8) {
    let x2 = if log_m == 255 { x } else { x ^ lut[y as int] };
    (x2, y ^ x2)
}

/// One element of an inverse butterfly: `y ^= x; x ^= m * y`.
pub open spec fn dit2_inv(x: u8, y: u8, log_m: u8, lut: Seq<u8>) -> (u8, u8) {
    let y2 = y ^ x;
    (if log_m == 255 { x } else { x ^ lut[y2 as int] }, y2)
}

/// The inverse butterfly undoes the forward one.
pub proof fn lemma_dit2_inverse(x: u8, y: u8, log_m: u8, lut: Seq<u8>)
    requires
        lut.len() == 256,
    ensures
        ({
            let (fx, fy) = dit2_fwd(x, y, log_m, lut);
            dit2_inv(fx, fy, log_m, lut) == (x, y)
        }),
{
    let (fx, fy) = dit2_fwd(x, y, log_m, lut);
    let l = lut[y as int];
    assert((y ^ fx) ^ fx == y) by (bit_vector);
    if log_m != 255 {
        assert((x ^ l) ^ l == x) by (bit_vector);
    }
}

/// Forward butterfly over two slices: `dst ^= m * src; src ^= dst`.
fn dit2_step_prebuilt(dst: &mut [u8], src: &mut [u8], log_m: u8, lut: &[u8; 256], low: &[u8; 16], high: &[u8; 16])
    requires
        old(dst)@.len() == old(src)@.len(),
    ensures
        final(dst)@.len() == old(dst)@.len(),
        final(src)@.len() == old(src)@.len(),
        forall|i: int|
            0 <= i < old(dst)@.len() ==> (#[trigger] final(dst)@[i], final(src)@[i]) == dit2_fwd(
                old(dst)@[i],
                old(src)@[i],
                log_m,
                lut@,
            ),
{
    if log_m == MODULUS8 as u8 {
        slice_xor(dst, src);
    } else {
        lut_xor_prebuilt(dst, src, low, high, lut);
        slice_xor(dst, src);
    }
}

/// Inverse butterfly over two slices: `src ^= dst; dst ^= m * src`.
fn dit2_step_inv_prebuilt(dst: &mut [u8], src: &mut [u8], log_m: u8, lut: &[u8; 256], low: &[u8; 16], high: &[u8; 16])
    requires
        old(dst)@.len() == old(src)@.len(),
    ensures
        final(dst)@.len() == old(dst)@.len(),
        final(src)@.len() == old(src)@.len(),
        forall|i: int|
            0 <= i < old(dst)@.len() ==> (#[trigger] final(dst)@[i], final(src)@[i]) == dit2_inv(
                old(dst)@[i],
                old(src)@[i],
                log_m,
                lut@,
            ),
{
    if log_m == MODULUS8 as u8 {
        slice_xor(dst, src);
    } else {
        slice_xor(dst, src);
        lut_xor_prebuilt(dst, src, low, high, lut);
    }
}

/// Forward butterfly with the multiplier table for `log_m`.
pub fn fft_dit2(x: &mut [u8], y: &mut [u8], log_m: u8, tables: &LeopardGf8Tables)
    requires
        tables_wf(tables),
        old(x)@.len() == old(y)@.len(),
    ensures
        final(x)@.len() == old(x)@.len(),
        final(y)@.len() == old(y)@.len(),
        forall|i: int|
            0 <= i < old(x)@.len() ==> (#[trigger] final(x)@[i], final(y)@[i]) == dit2_fwd(
                old(x)@[i],
                old(y)@[i],
                log_m,
                tables.mul_luts@[log_m as int].value@,
            ),
{
    let lut = &tables.mul_luts[log_m as usize];
    dit2_step_prebuilt(x, y, log_m, &lut.value, &lut.low, &lut.high);
}

/// Inverse butterfly with the multiplier table for `log_m`.
pub fn ifft_dit2(x: &mut [u8], y: &mut [u8], log_m: u8, tables: &LeopardGf8Tables)
    requires
        tables_wf(tables),
        old(x)@.len() == old(y)@.len(),
    ensures
        final(x)@.len() == old(x)@.len(),
        final(y)@.len() == old(y)@.len(),
        forall|i: int|
            0 <= i < old(x)@.len() ==> (#[trigger] final(x)@[i], final(y)@[i]) == dit2_inv(
                old(x)@[i],
                old(y)@[i],
                log_m,
                tables.mul_luts@[log_m as int].value@,
            ),
{
    let lut = &tables.mul_luts[log_m as usize];
    dit2_step_inv_prebuilt(x, y, log_m, &lut.value, &lut.low, &lut.high);
}

/// A radix-4 forward butterfly on one position of four slices: the pairs
/// `(a, c)` and `(b, d)` with `m02`, then `(a, b)` with `m01` and `(c, d)` with `m23`.
pub open spec fn dit4_fwd(
    v: (u8, u8, u8, u8),
    log_m01: u8,
    log_m23: u8,
    log_m02: u8,
    lut01: Seq<u8>,
    lut23: Seq<u8>,
    lut02: Seq<u8>,
) -> (u8, u8, u8, u8) {
    let (a1, c1) = dit2_fwd(v.0, v.2, log_m02, lut02);
    let (b1, d1) = dit2_fwd(v.1, v.3, log_m02, lut02);
    let (a2, b2) = dit2_fwd(a1, b1, log_m01, lut01);
    let (c2, d2) = dit2_fwd(c1, d1, log_m23, lut23);
    (a2, b2, c2, d2)
}

/// A radix-4 inverse butterfly on one position of four slices: `(a, b)` with
/// `m01` and `(c, d)` with `m23`, then `(b, d)` and `(a, c)` with `m02`.
pub open spec fn dit4_inv(
    v: (u8, u8, u8, u8),
    log_m01: u8,
    log_m23: u8,
    log_m02: u8,
    lut01: Seq<u8>,
    lut23: Seq<u8>,
    lut02: Seq<u8>,
) -> (u8, u8, u8, u8) {
    let (a1, b1) = dit2_inv(v.0, v.1, log_m01, lut01);
    let (c1, d1) = dit2_inv(v.2, v.3, log_m23, lut23);
    let (b2, d2) = dit2_inv(b1, d1, log_m02, lut02);
    let (a2, c2) = dit2_inv(a1, c1, log_m02, lut02);
    (a2, b2, c2, d2)
}

/// The radix-4 inverse butterfly undoes the forward one with the same multipliers.
pub proof fn lemma_dit4_inverse(
    v: (u8, u8, u8, u8),
    log_m01: u8,
    log_m23: u8,
    log_m02: u8,
    lut01: Seq<u8>,
    lut23: Seq<u8>,
    lut02: Seq<u8>,
)
    requires
        lut01.len() == 256,
        lut23.len() == 256,
        lut02.len() == 256,
    ensures
        dit4_inv(dit4_fwd(v, log_m01, log_m23, log_m02, lut01, lut23, lut02), log_m01, log_m23, log_m02, lut01, lut23, lut02) == v,
{
    let (a1, c1) = dit2_fwd(v.0, v.2, log_m02, lut02);
    let (b1, d1) = dit2_fwd(v.1, v.3, log_m02, lut02);
    lemma_dit2_inverse(v.0, v.2, log_m02, lut02);
    lemma_dit2_inverse(v.1, v.3, log_m02, lut02);
    lemma_dit2_inverse(a1, b1, log_m01, lut01);
    lemma_dit2_inverse(c1, d1, log_m23, lut23);
}

/// Forward radix-4 butterfly over four equally long slices.
pub fn fft_dit4_full_lut_scratch(
    a: &mut [u8],
    b: &mut [u8],
    c: &mut [u8],
    d: &mut [u8],
    log_m01: u8,
    log_m23: u8,
    log_m02: u8,
    lut01: &[u8; 256],
    lut01_low: &[u8; 16],
    lut01_high: &[u8; 16],
    lut23: &[u8; 256],
    lut23_low: &[u8; 16],
    lut23_high: &[u8; 16],
    lut02: &[u8; 256],
    lut02_low: &[u8; 16],
    lut02_high: &[u8; 16],
    scratch: &mut [u8],
)
    requires
        old(a)@.len() == old(b)@.len(),
        old(a)@.len() == old(c)@.len(),
        old(a)@.len() == old(d)@.len(),
        old(scratch)@.len() >= old(a)@.len(),
    ensures
        final(a)@.len() == old(a)@.len(),
        final(b)@.len() == old(b)@.len(),
        final(c)@.len() == old(c)@.len(),
        final(d)@.len() == old(d)@.len(),
        forall|i: int|
            0 <= i < old(a)@.len() ==> (#[trigger] final(a)@[i], final(b)@[i], final(c)@[i], final(d)@[i]) == dit4_fwd(
                (old(a)@[i], old(b)@[i], old(c)@[i], old(d)@[i]),
                log_m01,
                log_m23,
                log_m02,
                lut01@,
                lut23@,
                lut02@,
            ),
{
    dit2_step_prebuilt(a, c, log_m02, lut02, lut02_low, lut02_high);
    dit2_step_prebuilt(b, d, log_m02, lut02, lut02_low, lut02_high);
    dit2_step_prebuilt(a, b, log_m01, lut01, lut01_low, lut01_high);
    dit2_step_prebuilt(c, d, log_m23, lut23, lut23_low, lut23_high);
}

/// Inverse radix-4 butterfly over four equally long slices.
pub fn ifft_dit4_full_lut_scratch(
    a: &mut [u8],
    b: &mut [u8],
    c: &mut [u8],
    d: &mut [u8],
    log_m01: u8,
    log_m23: u8,
    log_m02: u8,
    lut01: &[u8; 256],
    lut01_low: &[u8; 16],
    lut01_high: &[u8; 16],
    lut23: &[u8; 256],
    lut23_low: &[u8; 16],
    lut23_high: &[u8; 16],
    lut02: &[u8; 256],
    lut02_low: &[u8; 16],
    lut02_high: &[u8; 16],
    scratch: &mut [u8],
)
    requires
        old(a)@.len() == old(b)@.len(),
        old(a)@.len() == old(c)@.len(),
        old(a)@.len() == old(d)@.len(),
        old(scratch)@.len() >= old(a)@.len(),
    ensures
        final(a)@.len() == old(a)@.len(),
        final(b)@.len() == old(b)@.len(),
        final(c)@.len() == old(c)@.len(),
        final(d)@.len() == old(d)@.len(),
        forall|i: int|
            0 <= i < old(a)@.len() ==> (#[trigger] final(a)@[i], final(b)@[i], final(c)@[i], final(d)@[i]) == dit4_inv(
                (old(a)@[i], old(b)@[i], old(c)@[i], old(d)@[i]),
                log_m01,
                log_m23,
                log_m02,
                lut01@,
                lut23@,
                lut02@,
            ),
{
    dit2_step_inv_prebuilt(a, b, log_m01, lut01, lut01_low, lut01_high);
    dit2_step_inv_prebuilt(c, d, log_m23, lut23, lut23_low, lut23_high);
    dit2_step_inv_prebuilt(b, d, log_m02, lut02, lut02_low, lut02_high);
    dit2_step_inv_prebuilt(a, c, log_m02, lut02, lut02_low, lut02_high);
}

/// A Walsh-Hadamard butterfly on logarithms at positions `i` and `j`.
pub open spec fn bfly(s: Seq<u8>, i: int, j: int) -> Seq<u8> {
    s.update(i, add_mod8_spec(s[i], s[j])).update(j, sub_mod8_spec(s[i], s[j]))
}

/// A radix-4 transform step at `off` with stride `d`: butterflies on
/// `(off, off+d)`, `(off+2d, off+3d)`, `(off, off+2d)` and `(off+d, off+3d)`.
pub open spec fn g4(s: Seq<u8>, off: int, d: int) -> Seq<u8> {
    bfly(bfly(bfly(bfly(s, off, off + d), off + 2 * d, off + 3 * d), off, off + 2 * d), off + d, off + 3 * d)
}

/// The radix-4 steps at the given `(off, group, stride)` positions, in order.
pub open spec fn apply4(s: Seq<u8>, ops: Seq<(int, int, int)>) -> Seq<u8>
    decreases ops.len(),
{
    if ops.len() == 0 {
        s
    } else {
        g4(apply4(s, ops.drop_last()), ops.last().0, ops.last().2)
    }
}

/// The radix-2 steps at the given `(off, group, stride)` positions, in order.
pub open spec fn apply2(s: Seq<u8>, ops: Seq<(int, int, int)>) -> Seq<u8>
    decreases ops.len(),
{
    if ops.len() == 0 {
        s
    } else {
        let o = ops.last();
        bfly(apply2(s, ops.drop_last()), o.0, o.0 + o.2)
    }
}

/// The radix-4 positions of a transform over `limit` inputs of a table of
/// size `n`: strides `dist, 4*dist, ...` while a group of four strides fits in `n`.
pub open spec fn fwht_ops(limit: int, n: int, dist: int) -> Seq<(int, int, int)>
    decreases n - dist,
{
    if dist >= 1 && 4 * dist <= n {
        decode_stage(0, limit, dist, 4 * dist) + fwht_ops(limit, n, 4 * dist)
    } else {
        seq![]
    }
}

/// The radix-2 stage that finishes a transform of size `n` whose radix-4
/// stages ended at stride `d`.
pub open spec fn fwht_tail(n: int, d: int) -> Seq<(int, int, int)> {
    if d < n && 2 * d <= n {
        decode_stage(0, n, d, 2 * d)
    } else {
        seq![]
    }
}

proof fn lemma_apply4_concat(s: Seq<u8>, a: Seq<(int, int, int)>, b: Seq<(int, int, int)>)
    ensures
        apply4(s, a + b) == apply4(apply4(s, a), b),
    decreases b.len(),
{
    if b.len() == 0 {
        assert(a + b =~= a);
    } else {
        assert((a + b).drop_last() =~= a + b.drop_last());
        lemma_apply4_concat(s, a, b.drop_last());
    }
}

proof fn lemma_apply4_push(s: Seq<u8>, a: Seq<(int, int, int)>, x: (int, int, int))
    ensures
        apply4(s, a.push(x)) == g4(apply4(s, a), x.0, x.2),
{
    assert(a.push(x).drop_last() =~= a);
}

proof fn lemma_apply2_push(s: Seq<u8>, a: Seq<(int, int, int)>, x: (int, int, int))
    ensures
        apply2(s, a.push(x)) == bfly(apply2(s, a), x.0, x.0 + x.2),
{
    assert(a.push(x).drop_last() =~= a);
}

proof fn lemma_next_multiple(k: int, q: int, d: int)
    requires
        d > 0,
        0 <= k,
        k * d < q * d,
    ensures
        k * d + d <= q * d,
{
    assert(k < q) by (nonlinear_arith)
        requires
            d > 0,
            k * d < q * d,
    ;
    assert(k * d + d <= q * d) by (nonlinear_arith)
        requires
            d > 0,
            k < q,
    ;
}

/// One butterfly in place on a slice.
fn bfly_in_place(data: &mut [u8], i: usize, j: usize)
    requires
        i < old(data)@.len(),
        j < old(data)@.len(),
        i != j,
    ensures
        final(data)@ == bfly(old(data)@, i as int, j as int),
        final(data)@.len() == old(data)@.len(),
{
    let (t0, t1) = fwht2_alt8(data[i], data[j]);
    data[i] = t0;
    data[j] = t1;
}

/// One radix-4 stage of the transform: every element of every group of four
/// strides below `limit`.
fn fwht4_stage(data: &mut [u8], limit: usize, dist: usize, dist4: usize, Ghost(q): Ghost<int>)
    requires
        dist >= 1,
        dist4 == 4 * dist,
        limit <= old(data)@.len(),
        old(data)@.len() <= 256,
        old(data)@.len() == q * dist4,
    ensures
        final(data)@ == apply4(old(data)@, decode_stage(0, limit as int, dist as int, dist4 as int)),
        final(data)@.len() == old(data)@.len(),
{
    let ghost stage = decode_stage(0, limit as int, dist as int, dist4 as int);
    let ghost mut sdone: Seq<(int, int, int)> = seq![];
    let ghost n = data@.len();
    let mut r: usize = 0;
    let ghost mut k: int = 0;
    proof {
        assert(sdone + stage =~= stage);
    }
    while r < limit
        invariant
            n == data@.len(),
            n <= 256,
            n == q * dist4,
            limit <= n,
            dist >= 1,
            dist4 == 4 * dist,
            k >= 0,
            r == k * dist4,
            r <= limit + dist4,
            stage == decode_stage(0, limit as int, dist as int, dist4 as int),
            sdone + decode_stage(r as int, limit as int, dist as int, dist4 as int) == stage,
            data@ == apply4(old(data)@, sdone),
        decreases limit + dist4 - r,
    {
        proof {
            lemma_next_multiple(k, q, dist4 as int);
        }
        let ghost after = decode_stage(r + dist4, limit as int, dist as int, dist4 as int);
        assert(decode_stage(r as int, limit as int, dist as int, dist4 as int) == span(
            r as int,
            r + dist,
            r as int,
            dist as int,
        ) + after);
        let mut off = r;
        let ghost mut gdone: Seq<(int, int, int)> = seq![];
        proof {
            assert(gdone + span(r as int, r + dist, r as int, dist as int) =~= span(r as int, r + dist, r as int, dist as int));
            assert(sdone + gdone =~= sdone);
        }
        while off < r + dist
            invariant
                n == data@.len(),
                n <= 256,
                r + dist4 <= n,
                dist >= 1,
                dist4 == 4 * dist,
                r <= off <= r + dist,
                gdone + span(off as int, r + dist, r as int, dist as int) == span(r as int, r + dist, r as int, dist as int),
                data@ == apply4(old(data)@, sdone + gdone),
            decreases r + dist - off,
        {
            let ghost prev = data@;
            bfly_in_place(data, off, off + dist);
            bfly_in_place(data, off + dist * 2, off + dist * 3);
            bfly_in_place(data, off, off + dist * 2);
            bfly_in_place(data, off + dist, off + dist * 3);
            proof {
                let t = (off as int, r as int, dist as int);
                lemma_apply4_push(old(data)@, sdone + gdone, t);
                assert((sdone + gdone).push(t) =~= sdone + gdone.push(t));
                assert(gdone.push(t) + span(off + 1, r + dist, r as int, dist as int) =~= gdone + (seq![t] + span(off + 1, r + dist, r as int, dist as int)));
                gdone = gdone.push(t);
            }
            off = off + 1;
        }
        proof {
            assert(span(off as int, r + dist, r as int, dist as int) =~= seq![]);
            assert(gdone =~= span(r as int, r + dist, r as int, dist as int));
            assert((sdone + gdone) + after =~= sdone + (gdone + after));
            sdone = sdone + gdone;
            assert((k + 1) * dist4 == k * dist4 + dist4) by (nonlinear_arith);
            k = k + 1;
        }
        r = r + dist4;
    }
    proof {
        assert(decode_stage(r as int, limit as int, dist as int, dist4 as int) =~= seq![]);
        assert(sdone =~= stage);
    }
}

/// The radix-2 stage of stride `dist` over the whole slice.
fn fwht2_stage(data: &mut [u8], dist: usize, Ghost(q): Ghost<int>)
    requires
        dist >= 1,
        2 * dist <= old(data)@.len(),
        old(data)@.len() <= 256,
        old(data)@.len() == q * (2 * dist),
    ensures
        final(data)@ == apply2(old(data)@, decode_stage(0, old(data)@.len() as int, dist as int, 2 * dist)),
        final(data)@.len() == old(data)@.len(),
{
    let n = data.len();
    let dist2 = dist * 2;
    let ghost stage = decode_stage(0, n as int, dist as int, dist2 as int);
    let ghost mut sdone: Seq<(int, int, int)> = seq![];
    let mut r: usize = 0;
    let ghost mut k: int = 0;
    proof {
        assert(sdone + stage =~= stage);
        assert(apply2(old(data)@, sdone) == old(data)@);
    }
    while r < n
        invariant
            n == data@.len(),
            n <= 256,
            n == q * dist2,
            dist >= 1,
            dist2 == 2 * dist,
            k >= 0,
            r == k * dist2,
            r <= n + dist2,
            stage == decode_stage(0, n as int, dist as int, dist2 as int),
            sdone + decode_stage(r as int, n as int, dist as int, dist2 as int) == stage,
            data@ == apply2(old(data)@, sdone),
        decreases n + dist2 - r,
    {
        proof {
            lemma_next_multiple(k, q, dist2 as int);
        }
        let ghost after = decode_stage(r + dist2, n as int, dist as int, dist2 as int);
        assert(decode_stage(r as int, n as int, dist as int, dist2 as int) == span(
            r as int,
            r + dist,
            r as int,
            dist as int,
        ) + after);
        let mut off = r;
        let ghost mut gdone: Seq<(int, int, int)> = seq![];
        proof {
            assert(gdone + span(r as int, r + dist, r as int, dist as int) =~= span(r as int, r + dist, r as int, dist as int));
            assert(sdone + gdone =~= sdone);
        }
        while off < r + dist
            invariant
                n == data@.len(),
                n <= 256,
                r + dist2 <= n,
                dist >= 1,
                dist2 == 2 * dist,
                r <= off <= r + dist,
                gdone + span(off as int, r + dist, r as int, dist as int) == span(r as int, r + dist, r as int, dist as int),
                data@ == apply2(old(data)@, sdone + gdone),
            decreases r + dist - off,
        {
            bfly_in_place(data, off, off + dist);
            proof {
                let t = (off as int, r as int, dist as int);
                lemma_apply2_push(old(data)@, sdone + gdone, t);
                assert((sdone + gdone).push(t) =~= sdone + gdone.push(t));
                assert(gdone.push(t) + span(off + 1, r + dist, r as int, dist as int) =~= gdone + (seq![t] + span(off + 1, r + dist, r as int, dist as int)));
                gdone = gdone.push(t);
            }
            off = off + 1;
        }
        proof {
            assert(span(off as int, r + dist, r as int, dist as int) =~= seq![]);
            assert(gdone =~= span(r as int, r + dist, r as int, dist as int));
            assert((sdone + gdone) + after =~= sdone + (gdone + after));
            sdone = sdone + gdone;
            assert((k + 1) * dist2 == k * dist2 + dist2) by (nonlinear_arith);
            k = k + 1;
        }
        r = r + dist2;
    }
    proof {
        assert(decode_stage(r as int, n as int, dist as int, dist2 as int) =~= seq![]);
        assert(sdone =~= stage);
    }
}

/// The sizes the flexible transform accepts: powers of two up to 256.
pub open spec fn is_pow2_upto256(n: int) -> bool {
    n == 1 || n == 2 || n == 4 || n == 8 || n == 16 || n == 32 || n == 64 || n == 128 || n == 256
}

proof fn lemma_quotient(n: int, d: int)
    requires
        is_pow2_upto256(n),
        d == 2 || d == 4 || d == 8 || d == 16 || d == 32 || d == 64 || d == 128 || d == 256,
        d <= n,
    ensures
        n == (n / d) * d,
{
}

proof fn lemma_apply4_stage(s: Seq<u8>, done: Seq<(int, int, int)>, stage: Seq<(int, int, int)>, rest: Seq<(int, int, int)>)
    ensures
        apply4(s, done + stage) == apply4(apply4(s, done), stage),
        (done + stage) + rest == done + (stage + rest),
{
    lemma_apply4_concat(s, done, stage);
    assert((done + stage) + rest =~= done + (stage + rest));
}

/// The Walsh-Hadamard transform of a full table on logarithms modulo 255.
pub fn fwht8(data: &mut [u8; 256])
    ensures
        final(data)@ == apply4(old(data)@, fwht_ops(256, 256, 1)),
{
    fwht8_mtrunc(data, ORDER8_USIZE);
}

const ORDER8_USIZE: usize = 256;

/// The Walsh-Hadamard transform of a full table whose inputs past `mtrunc`
/// take no part in the first groups: each stage runs over the groups below
/// `mtrunc` only.
pub fn fwht8_mtrunc(data: &mut [u8], mtrunc: usize)
    requires
        old(data)@.len() == 256,
        mtrunc <= 256,
    ensures
        final(data)@ == apply4(old(data)@, fwht_ops(mtrunc as int, 256, 1)),
{
    let ghost whole = fwht_ops(mtrunc as int, 256, 1);
    let ghost mut done: Seq<(int, int, int)> = seq![];
    let mut dist: usize = 1;
    let mut dist4: usize = 4;
    proof {
        assert(done + whole =~= whole);
    }
    while dist4 <= 256
        invariant
            data@.len() == 256,
            mtrunc <= 256,
            dist4 == 4 * dist,
            dist == 1 || dist == 4 || dist == 16 || dist == 64 || dist == 256,
            whole == fwht_ops(mtrunc as int, 256, 1),
            done + fwht_ops(mtrunc as int, 256, dist as int) == whole,
            data@ == apply4(old(data)@, done),
        decreases 256 - dist,
    {
        let ghost stage = decode_stage(0, mtrunc as int, dist as int, dist4 as int);
        let ghost rest = fwht_ops(mtrunc as int, 256, dist4 as int);
        proof {
            lemma_quotient(256, dist4 as int);
            lemma_apply4_stage(old(data)@, done, stage, rest);
        }
        fwht4_stage(data, mtrunc, dist, dist4, Ghost(256int / dist4 as int));
        proof {
            done = done + stage;
            lemma_shl2(dist4);
        }
        dist = dist4;
        dist4 = dist4 << 2usize;
    }
    proof {
        assert(fwht_ops(mtrunc as int, 256, dist as int) =~= seq![]);
        assert(done =~= whole);
    }
}

/// The Walsh-Hadamard transform of a table of any power-of-two size up to
/// 256: radix-4 stages while a group of four strides fits, then one radix-2
/// stage when a single doubling is left.
pub fn fwht_variable(data: &mut [u8])
    requires
        is_pow2_upto256(old(data)@.len() as int),
    ensures
        final(data)@ == apply2(
            apply4(old(data)@, fwht_ops(old(data)@.len() as int, old(data)@.len() as int, 1)),
            fwht_tail(old(data)@.len() as int, ifft_last(old(data)@.len() as int, 1)),
        ),
{
    let n = data.len();
    let ghost whole = fwht_ops(n as int, n as int, 1);
    let ghost mut done: Seq<(int, int, int)> = seq![];
    let mut dist: usize = 1;
    proof {
        assert(done + whole =~= whole);
    }
    while dist < n
        invariant_except_break
            n == data@.len(),
            data@ == apply4(old(data)@, done),
        invariant
            n == old(data)@.len(),
            is_pow2_upto256(n as int),
            dist == 1 || dist == 4 || dist == 16 || dist == 64 || dist == 256,
            whole == fwht_ops(n as int, n as int, 1),
            done + fwht_ops(n as int, n as int, dist as int) == whole,
            ifft_last(n as int, dist as int) == ifft_last(n as int, 1),
        ensures
            data@ == apply2(apply4(old(data)@, whole), fwht_tail(n as int, ifft_last(n as int, 1))),
        decreases n - dist,
    {
        let dist4 = dist * 4;
        if dist4 <= n {
            let ghost stage = decode_stage(0, n as int, dist as int, dist4 as int);
            let ghost rest = fwht_ops(n as int, n as int, dist4 as int);
            proof {
                lemma_quotient(n as int, dist4 as int);
                lemma_apply4_stage(old(data)@, done, stage, rest);
            }
            fwht4_stage(data, n, dist, dist4, Ghost(n as int / dist4 as int));
            proof {
                done = done + stage;
            }
            dist = dist4;
        } else {
            proof {
                assert(fwht_ops(n as int, n as int, dist as int) =~= seq![]);
                assert(done =~= whole);
            }
            let dist2 = dist * 2;
            if dist2 <= n {
                proof {
                    lemma_quotient(n as int, dist2 as int);
                }
                fwht2_stage(data, dist, Ghost(n as int / dist2 as int));
            } else {
                proof {
                    assert(apply2(data@, seq![]) == data@);
                }
            }
            break;
        }
    }
}

/// Mutable references to two distinct elements `i` and `j` of a slice, in
/// that order, or `None` when they coincide or one is out of range.
pub fn get_pair_mut<T>(slice: &mut [T], i: usize, j: usize) -> (r: Option<(&mut T, &mut T)>)
    ensures
        r is None <==> (i == j || i >= old(slice)@.len() || j >= old(slice)@.len()),
        r is None ==> final(slice)@ == old(slice)@,
        r matches Some(p) ==> *p.0 == old(slice)@[i as int] && *p.1 == old(slice)@[j as int]
            && final(slice)@ == old(slice)@.update(i as int, *final(p.0)).update(j as int, *final(p.1)),
{
    if i == j || i >= slice.len() || j >= slice.len() {
        return None;
    }
    let (lo, hi, swapped) = if i < j {
        (i, j, false)
    } else {
        (j, i, true)
    };
    let (left, right) = slice.split_at_mut(hi);
    let first = &mut left[lo];
    let second = &mut right[0];
    if swapped {
        Some((second, first))
    } else {
        Some((first, second))
    }
}

} // verus!
