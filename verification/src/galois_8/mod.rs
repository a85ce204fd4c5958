//! Arithmetic in GF(2^8), the field of bytes modulo x^8 + x^4 + x^3 + x^2 + 1.
use vstd::prelude::*;

pub mod backend;
pub mod decode;
pub mod gfni;
pub mod policy;
pub mod profile;
pub mod slots;
pub mod workspace;

pub use slots::{mark_missing_slots, shards_to_slots};
pub use workspace::OptionVecReconstructWorkspace;

pub use backend::{BackendId, BackendKind};
pub use crate::codec::reed_solomon::ReedSolomon;
pub use profile::{RS_NEON_MUL_SLICE_XOR_SCHEDULE_ENV, parse_rust_neon_xor_unroll};

verus! {

/// Discrete logarithms base 2 of the non-zero field elements (index 0 holds 0).
pub const LOG_TABLE: [u8; 256] = [0, 0, 1, 25, 2, 50, 26, 198, 3, 223, 51, 238, 27, 104, 199, 75, 4, 100, 224, 14, 52, 141, 239, 129, 28, 193, 105, 248, 200, 8, 76, 113, 5, 138, 101, 47, 225, 36, 15, 33, 53, 147, 142, 218, 240, 18, 130, 69, 29, 181, 194, 125, 106, 39, 249, 185, 201, 154, 9, 120, 77, 228, 114, 166, 6, 191, 139, 98, 102, 221, 48, 253, 226, 152, 37, 179, 16, 145, 34, 136, 54, 208, 148, 206, 143, 150, 219, 189, 241, 210, 19, 92, 131, 56, 70, 64, 30, 66, 182, 163, 195, 72, 126, 110, 107, 58, 40, 84, 250, 133, 186, 61, 202, 94, 155, 159, 10, 21, 121, 43, 78, 212, 229, 172, 115, 243, 167, 87, 7, 112, 192, 247, 140, 128, 99, 13, 103, 74, 222, 237, 49, 197, 254, 24, 227, 165, 153, 119, 38, 184, 180, 124, 17, 68, 146, 217, 35, 32, 137, 46, 55, 63, 209, 91, 149, 188, 207, 205, 144, 135, 151, 178, 220, 252, 190, 97, 242, 86, 211, 171, 20, 42, 93, 158, 132, 60, 57, 83, 71, 109, 65, 162, 31, 45, 67, 216, 183, 123, 164, 118, 196, 23, 73, 236, 127, 12, 111, 246, 108, 161, 59, 82, 41, 157, 85, 170, 251, 96, 134, 177, 187, 204, 62, 90, 203, 89, 95, 176, 156, 169, 160, 81, 11, 245, 22, 235, 122, 117, 44, 215, 79, 174, 213, 233, 230, 231, 173, 232, 116, 214, 244, 234, 168, 80, 88, 175];

/// Powers of 2, repeated twice so that a sum of two logarithms can index it directly.
pub const EXP_TABLE: [u8; 510] = [1, 2, 4, 8, 16, 32, 64, 128, 29, 58, 116, 232, 205, 135, 19, 38, 76, 152, 45, 90, 180, 117, 234, 201, 143, 3, 6, 12, 24, 48, 96, 192, 157, 39, 78, 156, 37, 74, 148, 53, 106, 212, 181, 119, 238, 193, 159, 35, 70, 140, 5, 10, 20, 40, 80, 160, 93, 186, 105, 210, 185, 111, 222, 161, 95, 190, 97, 194, 153, 47, 94, 188, 101, 202, 137, 15, 30, 60, 120, 240, 253, 231, 211, 187, 107, 214, 177, 127, 254, 225, 223, 163, 91, 182, 113, 226, 217, 175, 67, 134, 17, 34, 68, 136, 13, 26, 52, 104, 208, 189, 103, 206, 129, 31, 62, 124, 248, 237, 199, 147, 59, 118, 236, 197, 151, 51, 102, 204, 133, 23, 46, 92, 184, 109, 218, 169, 79, 158, 33, 66, 132, 21, 42, 84, 168, 77, 154, 41, 82, 164, 85, 170, 73, 146, 57, 114, 228, 213, 183, 115, 230, 209, 191, 99, 198, 145, 63, 126, 252, 229, 215, 179, 123, 246, 241, 255, 227, 219, 171, 75, 150, 49, 98, 196, 149, 55, 110, 220, 165, 87, 174, 65, 130, 25, 50, 100, 200, 141, 7, 14, 28, 56, 112, 224, 221, 167, 83, 166, 81, 162, 89, 178, 121, 242, 249, 239, 195, 155, 43, 86, 172, 69, 138, 9, 18, 36, 72, 144, 61, 122, 244, 245, 247, 243, 251, 235, 203, 139, 11, 22, 44, 88, 176, 125, 250, 233, 207, 131, 27, 54, 108, 216, 173, 71, 142, 1, 2, 4, 8, 16, 32, 64, 128, 29, 58, 116, 232, 205, 135, 19, 38, 76, 152, 45, 90, 180, 117, 234, 201, 143, 3, 6, 12, 24, 48, 96, 192, 157, 39, 78, 156, 37, 74, 148, 53, 106, 212, 181, 119, 238, 193, 159, 35, 70, 140, 5, 10, 20, 40, 80, 160, 93, 186, 105, 210, 185, 111, 222, 161, 95, 190, 97, 194, 153, 47, 94, 188, 101, 202, 137, 15, 30, 60, 120, 240, 253, 231, 211, 187, 107, 214, 177, 127, 254, 225, 223, 163, 91, 182, 113, 226, 217, 175, 67, 134, 17, 34, 68, 136, 13, 26, 52, 104, 208, 189, 103, 206, 129, 31, 62, 124, 248, 237, 199, 147, 59, 118, 236, 197, 151, 51, 102, 204, 133, 23, 46, 92, 184, 109, 218, 169, 79, 158, 33, 66, 132, 21, 42, 84, 168, 77, 154, 41, 82, 164, 85, 170, 73, 146, 57, 114, 228, 213, 183, 115, 230, 209, 191, 99, 198, 145, 63, 126, 252, 229, 215, 179, 123, 246, 241, 255, 227, 219, 171, 75, 150, 49, 98, 196, 149, 55, 110, 220, 165, 87, 174, 65, 130, 25, 50, 100, 200, 141, 7, 14, 28, 56, 112, 224, 221, 167, 83, 166, 81, 162, 89, 178, 121, 242, 249, 239, 195, 155, 43, 86, 172, 69, 138, 9, 18, 36, 72, 144, 61, 122, 244, 245, 247, 243, 251, 235, 203, 139, 11, 22, 44, 88, 176, 125, 250, 233, 207, 131, 27, 54, 108, 216, 173, 71, 142];

/// Multiplication of a field element by the generator `x` (the byte 2).
pub open spec fn xt(a: u8) -> u8 {
    if a & 0x80u8 == 0u8 {
        a << 1u8
    } else {
        (a << 1u8) ^ 0x1du8
    }
}

/// `v` when bit `bit` is set in `b`, zero otherwise.
pub open spec fn pick(b: u8, bit: u8, v: u8) -> u8 {
    if b & bit == 0u8 {
        0u8
    } else {
        v
    }
}

/// Field multiplication: the sum over the set bits `i` of `b` of `a * x^i`.
pub closed spec fn gf_mul(a: u8, b: u8) -> u8 {
    let a1 = xt(a);
    let a2 = xt(a1);
    let a3 = xt(a2);
    let a4 = xt(a3);
    let a5 = xt(a4);
    let a6 = xt(a5);
    let a7 = xt(a6);
    pick(b, 1u8, a) ^ pick(b, 2u8, a1) ^ pick(b, 4u8, a2) ^ pick(b, 8u8, a3) ^ pick(b, 16u8, a4)
        ^ pick(b, 32u8, a5) ^ pick(b, 64u8, a6) ^ pick(b, 128u8, a7)
}

/// Unfolds the product: `a * b` is the sum over the set bits `i` of `b` of
/// `a` times `x^i`, each factor `x` being one shift with reduction by `0x11d`.
pub proof fn lemma_gf_mul_unfold(a: u8, b: u8)
    ensures
        gf_mul(a, b) == pick(b, 1u8, a) ^ pick(b, 2u8, xt(a)) ^ pick(b, 4u8, xt(xt(a))) ^ pick(b, 8u8, xt(xt(xt(a))))
            ^ pick(b, 16u8, xt(xt(xt(xt(a))))) ^ pick(b, 32u8, xt(xt(xt(xt(xt(a)))))) ^ pick(b, 64u8, xt(xt(xt(xt(xt(xt(a)))))))
            ^ pick(b, 128u8, xt(xt(xt(xt(xt(xt(xt(a)))))))),
{
}

/// `a` raised to the `n`-th power, with `a^0 == 1` for every `a`.
pub open spec fn gf_pow(a: u8, n: nat) -> u8
    decreases n,
{
    if n == 0 {
        1u8
    } else {
        gf_mul(a, gf_pow(a, (n - 1) as nat))
    }
}

/// The multiplicative inverse of a non-zero element (`a^254`); zero for zero.
pub open spec fn gf_inv(a: u8) -> u8 {
    gf_pow(a, 254)
}

/// Division as the library defines it: zero when either operand is zero.
pub open spec fn gf_div(a: u8, b: u8) -> u8 {
    if a == 0 || b == 0 {
        0u8
    } else {
        gf_mul(a, gf_inv(b))
    }
}

/// `x` applied `k` times to `a`.
pub open spec fn xt_n(a: u8, k: nat) -> u8
    decreases k,
{
    if k == 0 {
        a
    } else {
        xt(xt_n(a, (k - 1) as nat))
    }
}

/// Addition is associative.
pub proof fn lemma_add_associative(a: u8, b: u8, c: u8)
    ensures
        a ^ (b ^ c) == (a ^ b) ^ c,
{
    assert(a ^ (b ^ c) == (a ^ b) ^ c) by (bit_vector);
}

/// Addition is commutative, zero is its identity and every element is its own negation.
pub proof fn lemma_add_group(a: u8, b: u8)
    ensures
        a ^ b == b ^ a,
        a ^ 0u8 == a,
        a ^ a == 0u8,
{
    assert(a ^ b == b ^ a) by (bit_vector);
    assert(a ^ 0u8 == a) by (bit_vector);
    assert(a ^ a == 0u8) by (bit_vector);
}

/// Multiplication is commutative.
#[verifier::rlimit(100)]
pub proof fn lemma_mul_commutative(a: u8, b: u8)
    ensures
        gf_mul(a, b) == gf_mul(b, a),
{
    assert(gf_mul(a, b) == gf_mul(b, a)) by (bit_vector);
}

/// Multiplication distributes over addition.
pub proof fn lemma_mul_distributive(a: u8, b: u8, c: u8)
    ensures
        gf_mul(a, b ^ c) == gf_mul(a, b) ^ gf_mul(a, c),
        gf_mul(b ^ c, a) == gf_mul(b, a) ^ gf_mul(c, a),
{
    assert(gf_mul(a, b ^ c) == gf_mul(a, b) ^ gf_mul(a, c)) by (bit_vector);
    lemma_mul_commutative(a, b ^ c);
    lemma_mul_commutative(a, b);
    lemma_mul_commutative(a, c);
}

/// One is the multiplicative identity and zero annihilates.
pub proof fn lemma_mul_identity(a: u8)
    ensures
        gf_mul(a, 1) == a,
        gf_mul(1, a) == a,
        gf_mul(a, 0) == 0,
        gf_mul(0, a) == 0,
{
    assert(gf_mul(a, 1) == a) by (bit_vector);
    assert(gf_mul(1, a) == a) by (bit_vector);
    assert(gf_mul(a, 0) == 0) by (bit_vector);
    assert(gf_mul(0, a) == 0) by (bit_vector);
}

#[verifier::rlimit(100)]
proof fn lemma_mul_xt(a: u8, b: u8)
    ensures
        gf_mul(xt(a), b) == xt(gf_mul(a, b)),
{
    assert(gf_mul(xt(a), b) == xt(gf_mul(a, b))) by (bit_vector);
}

spec fn assoc_at(v: u8, b: u8, c: u8) -> bool {
    gf_mul(gf_mul(v, b), c) == gf_mul(v, gf_mul(b, c))
}

proof fn lemma_assoc_xor(v: u8, w: u8, b: u8, c: u8)
    requires
        assoc_at(v, b, c),
        assoc_at(w, b, c),
    ensures
        assoc_at(v ^ w, b, c),
{
    lemma_mul_distributive(b, v, w);
    lemma_mul_distributive(c, gf_mul(v, b), gf_mul(w, b));
    lemma_mul_distributive(gf_mul(b, c), v, w);
}

proof fn lemma_assoc_pick(a: u8, bit: u8, v: u8, b: u8, c: u8)
    requires
        assoc_at(v, b, c),
    ensures
        assoc_at(pick(a, bit, v), b, c),
{
    if a & bit != 0u8 {
    } else {
        lemma_mul_identity(b);
        lemma_mul_identity(c);
        lemma_mul_identity(gf_mul(b, c));
    }
}

proof fn lemma_assoc_xt_n(k: nat, b: u8, c: u8)
    ensures
        assoc_at(xt_n(1, k), b, c),
    decreases k,
{
    if k == 0 {
        lemma_mul_identity(b);
        lemma_mul_identity(gf_mul(b, c));
    } else {
        let v = xt_n(1, (k - 1) as nat);
        lemma_assoc_xt_n((k - 1) as nat, b, c);
        lemma_mul_xt(v, b);
        lemma_mul_xt(gf_mul(v, b), c);
        lemma_mul_xt(v, gf_mul(b, c));
    }
}

proof fn lemma_bits_of_byte(a: u8)
    ensures
        a == pick(a, 1u8, 1u8) ^ pick(a, 2u8, 2u8) ^ pick(a, 4u8, 4u8) ^ pick(a, 8u8, 8u8) ^ pick(
            a,
            16u8,
            16u8,
        ) ^ pick(a, 32u8, 32u8) ^ pick(a, 64u8, 64u8) ^ pick(a, 128u8, 128u8),
{
    assert(a == pick(a, 1u8, 1u8) ^ pick(a, 2u8, 2u8) ^ pick(a, 4u8, 4u8) ^ pick(a, 8u8, 8u8)
        ^ pick(a, 16u8, 16u8) ^ pick(a, 32u8, 32u8) ^ pick(a, 64u8, 64u8) ^ pick(a, 128u8, 128u8))
        by (bit_vector);
}

proof fn lemma_powers_of_two()
    ensures
        xt_n(1, 0) == 1u8,
        xt_n(1, 1) == 2u8,
        xt_n(1, 2) == 4u8,
        xt_n(1, 3) == 8u8,
        xt_n(1, 4) == 16u8,
        xt_n(1, 5) == 32u8,
        xt_n(1, 6) == 64u8,
        xt_n(1, 7) == 128u8,
{
    assert(xt(1u8) == 2u8 && xt(2u8) == 4u8 && xt(4u8) == 8u8 && xt(8u8) == 16u8 && xt(16u8)
        == 32u8 && xt(32u8) == 64u8 && xt(64u8) == 128u8) by (bit_vector);
    reveal_with_fuel(xt_n, 8);
}

/// Multiplication is associative.
pub proof fn lemma_mul_associative(a: u8, b: u8, c: u8)
    ensures
        gf_mul(gf_mul(a, b), c) == gf_mul(a, gf_mul(b, c)),
{
    lemma_powers_of_two();
    lemma_assoc_xt_n(0, b, c);
    lemma_assoc_xt_n(1, b, c);
    lemma_assoc_xt_n(2, b, c);
    lemma_assoc_xt_n(3, b, c);
    lemma_assoc_xt_n(4, b, c);
    lemma_assoc_xt_n(5, b, c);
    lemma_assoc_xt_n(6, b, c);
    lemma_assoc_xt_n(7, b, c);
    assert(assoc_at(xt_n(1, 0), b, c));
    assert(assoc_at(xt_n(1, 1), b, c));
    assert(assoc_at(xt_n(1, 2), b, c));
    assert(assoc_at(xt_n(1, 3), b, c));
    assert(assoc_at(xt_n(1, 4), b, c));
    assert(assoc_at(xt_n(1, 5), b, c));
    assert(assoc_at(xt_n(1, 6), b, c));
    assert(assoc_at(xt_n(1, 7), b, c));
    let p0 = pick(a, 1u8, 1u8);
    let p1 = pick(a, 2u8, 2u8);
    let p2 = pick(a, 4u8, 4u8);
    let p3 = pick(a, 8u8, 8u8);
    let p4 = pick(a, 16u8, 16u8);
    let p5 = pick(a, 32u8, 32u8);
    let p6 = pick(a, 64u8, 64u8);
    let p7 = pick(a, 128u8, 128u8);
    lemma_assoc_pick(a, 1u8, 1u8, b, c);
    lemma_assoc_pick(a, 2u8, 2u8, b, c);
    lemma_assoc_pick(a, 4u8, 4u8, b, c);
    lemma_assoc_pick(a, 8u8, 8u8, b, c);
    lemma_assoc_pick(a, 16u8, 16u8, b, c);
    lemma_assoc_pick(a, 32u8, 32u8, b, c);
    lemma_assoc_pick(a, 64u8, 64u8, b, c);
    lemma_assoc_pick(a, 128u8, 128u8, b, c);
    lemma_assoc_xor(p0, p1, b, c);
    lemma_assoc_xor(p0 ^ p1, p2, b, c);
    lemma_assoc_xor(p0 ^ p1 ^ p2, p3, b, c);
    lemma_assoc_xor(p0 ^ p1 ^ p2 ^ p3, p4, b, c);
    lemma_assoc_xor(p0 ^ p1 ^ p2 ^ p3 ^ p4, p5, b, c);
    lemma_assoc_xor(p0 ^ p1 ^ p2 ^ p3 ^ p4 ^ p5, p6, b, c);
    lemma_assoc_xor(p0 ^ p1 ^ p2 ^ p3 ^ p4 ^ p5 ^ p6, p7, b, c);
    lemma_bits_of_byte(a);
}


/// The polynomial `X^2 + 2*X + 128` has no root in GF(2^8): for every byte `m`,
/// `m^2 + 2*m + 128 != 0`, written as `(2 + m) * m != 128`.
pub proof fn lemma_quadratic_has_no_root(m: u8)
    ensures
        gf_mul(2u8 ^ m, m) != 128u8,
{
    assert(forall|m: u8| #[trigger] gf_mul(2u8 ^ m, m) != 128u8) by (bit_vector);
}

/// Powers add their exponents.
pub proof fn lemma_pow_add(a: u8, m: nat, n: nat)
    ensures
        gf_pow(a, m + n) == gf_mul(gf_pow(a, m), gf_pow(a, n)),
    decreases m,
{
    if m == 0 {
        lemma_mul_identity(gf_pow(a, n));
    } else {
        lemma_pow_add(a, (m - 1) as nat, n);
        assert(gf_pow(a, m + n) == gf_mul(a, gf_pow(a, ((m - 1) + n) as nat)));
        lemma_mul_associative(a, gf_pow(a, (m - 1) as nat), gf_pow(a, n));
    }
}

proof fn lemma_order_divides_255(a: u8, t1: u8, t2: u8, t3: u8, t4: u8, t5: u8, t6: u8, t7: u8, q2: u8, q3: u8, q4: u8, q5: u8, q6: u8, q7: u8, q8: u8)
    requires
        a != 0,
        t1 == gf_mul(a, a),
        t2 == gf_mul(t1, t1),
        t3 == gf_mul(t2, t2),
        t4 == gf_mul(t3, t3),
        t5 == gf_mul(t4, t4),
        t6 == gf_mul(t5, t5),
        t7 == gf_mul(t6, t6),
        q2 == gf_mul(a, t1),
        q3 == gf_mul(q2, t2),
        q4 == gf_mul(q3, t3),
        q5 == gf_mul(q4, t4),
        q6 == gf_mul(q5, t5),
        q7 == gf_mul(q6, t6),
        q8 == gf_mul(q7, t7),
    ensures
        q8 == 1,
{
    assert(q8 == 1u8) by (bit_vector)
        requires
            a != 0u8,
            t1 == gf_mul(a, a),
            t2 == gf_mul(t1, t1),
            t3 == gf_mul(t2, t2),
            t4 == gf_mul(t3, t3),
            t5 == gf_mul(t4, t4),
            t6 == gf_mul(t5, t5),
            t7 == gf_mul(t6, t6),
            q2 == gf_mul(a, t1),
            q3 == gf_mul(q2, t2),
            q4 == gf_mul(q3, t3),
            q5 == gf_mul(q4, t4),
            q6 == gf_mul(q5, t5),
            q7 == gf_mul(q6, t6),
            q8 == gf_mul(q7, t7),
    ;
}

/// Every non-zero element has order dividing 255.
pub proof fn lemma_pow_255(a: u8)
    requires
        a != 0,
    ensures
        gf_pow(a, 255) == 1,
{
    reveal_with_fuel(gf_pow, 2);
    lemma_mul_identity(a);
    assert(gf_pow(a, 1) == a);
    lemma_pow_add(a, 1, 1);
    lemma_pow_add(a, 2, 2);
    lemma_pow_add(a, 4, 4);
    lemma_pow_add(a, 8, 8);
    lemma_pow_add(a, 16, 16);
    lemma_pow_add(a, 32, 32);
    lemma_pow_add(a, 64, 64);
    lemma_pow_add(a, 1, 2);
    lemma_pow_add(a, 3, 4);
    lemma_pow_add(a, 7, 8);
    lemma_pow_add(a, 15, 16);
    lemma_pow_add(a, 31, 32);
    lemma_pow_add(a, 63, 64);
    lemma_pow_add(a, 127, 128);
    lemma_order_divides_255(
        a,
        gf_pow(a, 2),
        gf_pow(a, 4),
        gf_pow(a, 8),
        gf_pow(a, 16),
        gf_pow(a, 32),
        gf_pow(a, 64),
        gf_pow(a, 128),
        gf_pow(a, 3),
        gf_pow(a, 7),
        gf_pow(a, 15),
        gf_pow(a, 31),
        gf_pow(a, 63),
        gf_pow(a, 127),
        gf_pow(a, 255),
    );
}

/// Powers of a non-zero element repeat with period 255.
pub proof fn lemma_pow_mod_255(a: u8, n: nat)
    requires
        a != 0,
    ensures
        gf_pow(a, n) == gf_pow(a, n % 255),
    decreases n,
{
    if n >= 255 {
        let m = (n - 255) as nat;
        lemma_pow_add(a, 255, m);
        assert(255 + m == n);
        lemma_pow_255(a);
        lemma_mul_identity(gf_pow(a, m));
        lemma_pow_mod_255(a, m);
        assert(m % 255 == n % 255) by (nonlinear_arith)
            requires
                n >= 255,
                m == n - 255,
        ;
    } else {
        assert(n % 255 == n);
    }
}

/// Zero raised to a positive power is zero.
pub proof fn lemma_pow_zero_base(n: nat)
    requires
        n > 0,
    ensures
        gf_pow(0, n) == 0,
{
    lemma_mul_identity(gf_pow(0, (n - 1) as nat));
}

/// Every non-zero element times its inverse is one.
pub proof fn lemma_mul_inverse(a: u8)
    requires
        a != 0,
    ensures
        gf_mul(a, gf_inv(a)) == 1,
        gf_mul(gf_inv(a), a) == 1,
{
    lemma_pow_255(a);
    lemma_mul_commutative(a, gf_inv(a));
}

/// A product of two elements is zero only when one of them is.
pub proof fn lemma_no_zero_divisors(a: u8, b: u8)
    ensures
        gf_mul(a, b) == 0 ==> a == 0 || b == 0,
{
    if gf_mul(a, b) == 0 && a != 0 {
        lemma_mul_inverse(a);
        lemma_mul_associative(gf_inv(a), a, b);
        lemma_mul_identity(b);
        lemma_mul_identity(gf_inv(a));
    }
}

/// Dividing by a non-zero element undoes multiplication by it, and is the only value that does.
pub proof fn lemma_div_mul(a: u8, b: u8, q: u8)
    requires
        b != 0,
    ensures
        gf_mul(gf_div(a, b), b) == a,
        gf_mul(q, b) == a ==> q == gf_div(a, b),
{
    lemma_mul_inverse(b);
    lemma_mul_identity(b);
    lemma_mul_identity(a);
    lemma_mul_identity(q);
    lemma_mul_identity(gf_inv(b));
    lemma_mul_associative(a, gf_inv(b), b);
    lemma_mul_associative(q, b, gf_inv(b));
}

/// `x` as an executable step.
fn xtime(a: u8) -> (r: u8)
    ensures
        r == xt(a),
{
    if a & 0x80u8 == 0u8 {
        a << 1u8
    } else {
        (a << 1u8) ^ 0x1du8
    }
}

/// Add two elements.
pub fn add(a: u8, b: u8) -> (r: u8)
    ensures
        r == a ^ b,
{
    a ^ b
}

/// Subtract `b` from `a`.
pub fn sub(a: u8, b: u8) -> (r: u8)
    ensures
        r == a ^ b,
{
    a ^ b
}

/// Multiply two elements.
pub fn mul(a: u8, b: u8) -> (r: u8)
    ensures
        r == gf_mul(a, b),
{
    let a1 = xtime(a);
    let a2 = xtime(a1);
    let a3 = xtime(a2);
    let a4 = xtime(a3);
    let a5 = xtime(a4);
    let a6 = xtime(a5);
    let a7 = xtime(a6);
    let mut r: u8 = 0;
    if b & 1u8 != 0 {
        r = r ^ a;
    }
    if b & 2u8 != 0 {
        r = r ^ a1;
    }
    if b & 4u8 != 0 {
        r = r ^ a2;
    }
    if b & 8u8 != 0 {
        r = r ^ a3;
    }
    if b & 16u8 != 0 {
        r = r ^ a4;
    }
    if b & 32u8 != 0 {
        r = r ^ a5;
    }
    if b & 64u8 != 0 {
        r = r ^ a6;
    }
    if b & 128u8 != 0 {
        r = r ^ a7;
    }
    proof {
        assert(0u8 ^ 0u8 == 0u8) by (bit_vector);
        assert(forall|x: u8| x ^ 0u8 == x && 0u8 ^ x == x) by (bit_vector);
    }
    r
}

/// Compute `a^n`; `0^0` is one.
pub fn exp(a: u8, n: usize) -> (r: u8)
    ensures
        r == gf_pow(a, n as nat),
{
    if n == 0 {
        return 1;
    }
    if a == 0 {
        proof {
            lemma_pow_zero_base(n as nat);
        }
        return 0;
    }
    let reduced = n % 255;
    let mut r: u8 = 1;
    let mut i: usize = 0;
    while i < reduced
        invariant
            i <= reduced,
            r == gf_pow(a, i as nat),
        decreases reduced - i,
    {
        r = self::mul(a, r);
        i = i + 1;
    }
    proof {
        lemma_pow_mod_255(a, n as nat);
    }
    r
}

/// Divide one element by another. If either is zero the result is zero.
pub fn div(a: u8, b: u8) -> (r: u8)
    ensures
        r == gf_div(a, b),
        b != 0 ==> gf_mul(r, b) == a,
{
    proof {
        if b != 0 {
            lemma_div_mul(a, b, 0);
        }
    }
    if a == 0 || b == 0 {
        return 0;
    }
    let inv = exp(b, 254);
    self::mul(a, inv)
}

/// Multiply each byte in `input` by `c`, writing the products to `out`.
pub fn mul_slice(c: u8, input: &[u8], out: &mut [u8])
    requires
        input.len() == old(out).len(),
    ensures
        final(out)@.len() == old(out)@.len(),
        forall|i: int| 0 <= i < input.len() ==> #[trigger] final(out)@[i] == gf_mul(c, input@[i]),
{
    let n = out.len();
    let mut i: usize = 0;
    while i < n
        invariant
            n == out@.len(),
            n == input@.len(),
            i <= n,
            forall|j: int| 0 <= j < i ==> #[trigger] out@[j] == gf_mul(c, input@[j]),
        decreases n - i,
    {
        out[i] = self::mul(c, input[i]);
        i = i + 1;
    }
}

/// Multiply each byte in `input` by `c` and add the product into `out`.
pub fn mul_slice_xor(c: u8, input: &[u8], out: &mut [u8])
    requires
        input.len() == old(out).len(),
    ensures
        final(out)@.len() == old(out)@.len(),
        forall|i: int|
            0 <= i < input.len() ==> #[trigger] final(out)@[i] == old(out)@[i] ^ gf_mul(c, input@[i]),
{
    let n = out.len();
    let mut i: usize = 0;
    while i < n
        invariant
            n == out@.len(),
            n == input@.len(),
            i <= n,
            out@.len() == old(out)@.len(),
            forall|j: int| 0 <= j < i ==> #[trigger] out@[j] == old(out)@[j] ^ gf_mul(c, input@[j]),
            forall|j: int| i <= j < n ==> #[trigger] out@[j] == old(out)@[j],
        decreases n - i,
    {
        let v = out[i] ^ self::mul(c, input[i]);
        out[i] = v;
        i = i + 1;
    }
}

/// The name of the backend that performs slice multiplication. This library
/// has no SIMD backend: every slice multiplication runs the scalar code, so
/// the scalar backend is always the active one.
pub fn active_backend_name() -> (r: &'static str)
    ensures
        r == backend::backend_name(BackendId::ScalarRust),
{
    backend::active_backend().name
}

/// The kind of the backend that performs slice multiplication: always the
/// scalar one, as this library runs no SIMD code.
pub fn active_backend_kind() -> (r: BackendKind)
    ensures
        r == BackendKind::Scalar,
{
    backend::active_backend().kind
}

/// The identifier of the backend that performs slice multiplication: always
/// the scalar one, as this library runs no SIMD code.
pub fn active_backend_id() -> (r: BackendId)
    ensures
        r == BackendId::ScalarRust,
{
    backend::active_backend().id
}

/// The field GF(2^8).
#[derive(Debug, Default, Copy, Clone, PartialEq, Eq)]
pub struct Field;

/// The number of elements of GF(2^8).
pub const GF8_ORDER: usize = 256;

impl Field {
    /// Add two elements.
    pub fn add(a: u8, b: u8) -> (r: u8)
        ensures
            r == a ^ b,
    {
        self::add(a, b)
    }

    /// Multiply two elements.
    pub fn mul(a: u8, b: u8) -> (r: u8)
        ensures
            r == gf_mul(a, b),
    {
        self::mul(a, b)
    }

    /// Divide `a` by `b`; zero when either is zero.
    pub fn div(a: u8, b: u8) -> (r: u8)
        ensures
            r == gf_div(a, b),
            b != 0 ==> gf_mul(r, b) == a,
    {
        self::div(a, b)
    }

    /// Raise `elem` to the `n`-th power.
    pub fn exp(elem: u8, n: usize) -> (r: u8)
        ensures
            r == gf_pow(elem, n as nat),
    {
        self::exp(elem, n)
    }

    /// The additive identity.
    pub fn zero() -> (r: u8)
        ensures
            r == 0,
    {
        0
    }

    /// The multiplicative identity.
    pub fn one() -> (r: u8)
        ensures
            r == 1,
    {
        1
    }

    /// The element with index `n`: its low byte.
    pub fn nth_internal(n: usize) -> (r: u8)
        ensures
            r == n % 256,
    {
        let r = n as u8;
        assert(r == n % 256) by (bit_vector)
            requires
                r == n as u8,
        ;
        r
    }

    /// `Some` of the `n`-th element when `n` is below the order, otherwise `None`.
    pub fn nth_checked(n: usize) -> (r: Option<u8>)
        ensures
            n >= GF8_ORDER ==> r is None,
            n < GF8_ORDER ==> r is Some && r->0 == n,
    {
        if n >= GF8_ORDER {
            None
        } else {
            Some(Self::nth_internal(n))
        }
    }

    /// The `n`-th element; an index past the order wraps around.
    pub fn nth(n: usize) -> (r: u8)
        ensures
            r == n % 256,
    {
        match Self::nth_checked(n) {
            Some(e) => e,
            None => Self::nth_internal(n % GF8_ORDER),
        }
    }

    /// `out[i] = c * input[i]` for every `i`.
    pub fn mul_slice(c: u8, input: &[u8], out: &mut [u8])
        requires
            input.len() == old(out).len(),
        ensures
            final(out)@.len() == old(out)@.len(),
            forall|i: int| 0 <= i < input.len() ==> #[trigger] final(out)@[i] == gf_mul(c, input@[i]),
    {
        self::mul_slice(c, input, out)
    }

    /// `out[i] = out[i] + c * input[i]` for every `i`.
    pub fn mul_slice_add(c: u8, input: &[u8], out: &mut [u8])
        requires
            input.len() == old(out).len(),
        ensures
            final(out)@.len() == old(out)@.len(),
            forall|i: int|
                0 <= i < input.len() ==> #[trigger] final(out)@[i] == old(out)@[i] ^ gf_mul(c, input@[i]),
    {
        self::mul_slice_xor(c, input, out)
    }
}

} // verus!
