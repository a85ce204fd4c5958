//! GF(2^16) as the quadratic extension GF((2^8)^2): an element `[h, l]` stands
//! for `h*X + l` with byte coefficients, reduced modulo the irreducible
//! `X^2 + 2*X + 128` (so `X^2 = 2*X + 128`).
use vstd::prelude::*;

use crate::galois_8;
use crate::galois_8::{gf_div, gf_mul, lemma_no_zero_divisors, lemma_quadratic_has_no_root, lemma_add_associative, lemma_add_group, lemma_mul_associative, lemma_mul_commutative, lemma_mul_distributive, lemma_mul_identity};

verus! {

/// Coefficients of the extension polynomial, leading first.
pub const EXT_POLY: [u8; 3] = [1, 2, 128];

/// Sum of two elements: coefficient-wise addition.
pub open spec fn gf16_add(a: [u8; 2], b: [u8; 2]) -> [u8; 2] {
    [a[0] ^ b[0], a[1] ^ b[1]]
}

/// The `X` coefficient of a product.
pub open spec fn mul_hi(a: [u8; 2], b: [u8; 2]) -> u8 {
    gf_mul(a[1], b[0]) ^ gf_mul(a[0], b[1]) ^ gf_mul(2, gf_mul(a[0], b[0]))
}

/// The constant coefficient of a product.
pub open spec fn mul_lo(a: [u8; 2], b: [u8; 2]) -> u8 {
    gf_mul(a[1], b[1]) ^ gf_mul(128, gf_mul(a[0], b[0]))
}

/// Product of two elements: the polynomial product with `X^2` replaced by `2*X + 128`.
pub open spec fn gf16_mul(a: [u8; 2], b: [u8; 2]) -> [u8; 2] {
    [mul_hi(a, b), mul_lo(a, b)]
}

pub open spec fn gf16_zero() -> [u8; 2] {
    [0u8, 0u8]
}

pub open spec fn gf16_one() -> [u8; 2] {
    [0u8, 1u8]
}

/// `a^n`, multiplying on the right: `a^0 == 1`, `a^n == a^(n-1) * a`.
pub open spec fn gf16_pow(a: [u8; 2], n: nat) -> [u8; 2]
    decreases n,
{
    if n == 0 {
        gf16_one()
    } else {
        gf16_mul(gf16_pow(a, (n - 1) as nat), a)
    }
}


/// `e` when `e` is an element of degree at most zero.
pub open spec fn gf16_constant(n: u8) -> [u8; 2] {
    [0u8, n]
}

/// Size of an element for the Euclidean algorithm: zero, constant, or linear.
pub open spec fn rank(e: [u8; 2]) -> nat {
    if e[0] != 0 {
        2
    } else if e[1] != 0 {
        1
    } else {
        0
    }
}

/// An element of GF(2^16): `[h, l]` stands for `h*X + l`.
#[derive(Debug, Copy, Clone, PartialEq, Eq)]
pub struct Element(pub [u8; 2]);

/// The second operand of a step of the Euclidean algorithm: an element, or the
/// extension polynomial itself (which is zero in the field).
enum EgcdRhs {
    Element(Element),
    ExtPoly,
}

/// The value of the second operand in the field.
spec fn rhs_value(rhs: EgcdRhs) -> [u8; 2] {
    match rhs {
        EgcdRhs::Element(e) => e.0,
        EgcdRhs::ExtPoly => gf16_zero(),
    }
}

proof fn lemma_xor_zero(a: u8)
    ensures
        a ^ 0u8 == a,
        0u8 ^ a == a,
{
    assert(a ^ 0u8 == a) by (bit_vector);
    assert(0u8 ^ a == a) by (bit_vector);
}

impl Element {
    pub fn zero() -> (r: Element)
        ensures
            r.0 == gf16_zero(),
    {
        Element([0, 0])
    }

    pub fn constant(n: u8) -> (r: Element)
        ensures
            r.0 == gf16_constant(n),
    {
        Element([0, n])
    }

    pub fn is_zero(&self) -> (r: bool)
        ensures
            r == (self.0[0] == 0 && self.0[1] == 0),
            r == (rank(self.0) == 0),
    {
        self.0[0] == 0 && self.0[1] == 0
    }

    fn degree(&self) -> (r: usize)
        ensures
            r == (if self.0[0] != 0 {
                1usize
            } else {
                0usize
            }),
    {
        if self.0[0] != 0 {
            1
        } else {
            0
        }
    }

    /// Reduces a polynomial of degree at most two by the extension polynomial.
    fn reduce_from(x: [u8; 3]) -> (r: Element)
        ensures
            r.0[0] == x[1] ^ gf_mul(2, x[0]),
            r.0[1] == x[2] ^ gf_mul(128, x[0]),
    {
        let mut x1 = x[1];
        let mut x2 = x[2];
        if x[0] != 0 {
            x1 = x1 ^ galois_8::mul(EXT_POLY[1], x[0]);
            x2 = x2 ^ galois_8::mul(EXT_POLY[2], x[0]);
        } else {
            proof {
                lemma_mul_identity(2);
                lemma_mul_identity(128);
                lemma_xor_zero(x1);
                lemma_xor_zero(x2);
            }
        }
        Element([x1, x2])
    }

    pub fn add(self, other: Element) -> (r: Element)
        ensures
            r.0 == gf16_add(self.0, other.0),
    {
        Element([self.0[0] ^ other.0[0], self.0[1] ^ other.0[1]])
    }

    pub fn sub(self, other: Element) -> (r: Element)
        ensures
            r.0 == gf16_add(self.0, other.0),
    {
        self.add(other)
    }

    pub fn mul(self, rhs: Element) -> (r: Element)
        ensures
            r.0 == gf16_mul(self.0, rhs.0),
    {
        let out: [u8; 3] = [
            galois_8::mul(self.0[0], rhs.0[0]),
            galois_8::add(galois_8::mul(self.0[1], rhs.0[0]), galois_8::mul(self.0[0], rhs.0[1])),
            galois_8::mul(self.0[1], rhs.0[1]),
        ];
        let r = Element::reduce_from(out);
        assert(r.0 =~= gf16_mul(self.0, rhs.0));
        r
    }

    pub fn mul_scalar(self, rhs: u8) -> (r: Element)
        ensures
            r.0[0] == gf_mul(rhs, self.0[0]),
            r.0[1] == gf_mul(rhs, self.0[1]),
    {
        Element([galois_8::mul(rhs, self.0[0]), galois_8::mul(rhs, self.0[1])])
    }

    pub fn exp(self, n: usize) -> (r: Element)
        ensures
            r.0 == gf16_pow(self.0, n as nat),
    {
        if n == 0 {
            return Element::constant(1);
        }
        if self.is_zero() {
            proof {
                lemma_gf16_mul_zero(gf16_pow(self.0, (n - 1) as nat));
                assert(self.0 =~= gf16_zero());
            }
            return Element::zero();
        }
        let x = self;
        let mut acc = self;
        let mut i: usize = 1;
        proof {
            reveal_with_fuel(gf16_pow, 2);
            lemma_gf16_mul_one(x.0);
        }
        while i < n
            invariant
                1 <= i <= n,
                acc.0 == gf16_pow(x.0, i as nat),
            decreases n - i,
        {
            acc = acc.mul(x);
            i = i + 1;
        }
        acc
    }
}

/// Zero annihilates.
pub proof fn lemma_gf16_mul_zero(a: [u8; 2])
    ensures
        gf16_mul(a, gf16_zero()) == gf16_zero(),
        gf16_mul(gf16_zero(), a) == gf16_zero(),
{
    lemma_mul_identity(a[0]);
    lemma_mul_identity(a[1]);
    lemma_mul_identity(2);
    lemma_mul_identity(128);
    lemma_xor_zero(0);
    assert(gf16_mul(a, gf16_zero()) =~= gf16_zero());
    assert(gf16_mul(gf16_zero(), a) =~= gf16_zero());
}

/// One is the identity.
pub proof fn lemma_gf16_mul_one(a: [u8; 2])
    ensures
        gf16_mul(a, gf16_one()) == a,
        gf16_mul(gf16_one(), a) == a,
{
    lemma_mul_identity(a[0]);
    lemma_mul_identity(a[1]);
    lemma_mul_identity(2);
    lemma_mul_identity(128);
    lemma_xor_zero(a[0]);
    lemma_xor_zero(a[1]);
    lemma_xor_zero(0);
    assert(gf16_mul(a, gf16_one()) =~= a);
    assert(gf16_mul(gf16_one(), a) =~= a);
}

proof fn lemma_xor_swap(x: u8, y: u8, z: u8)
    ensures
        (x ^ y) ^ z == (y ^ x) ^ z,
{
    assert((x ^ y) ^ z == (y ^ x) ^ z) by (bit_vector);
}

proof fn lemma_xor_regroup4(a: u8, b: u8, c: u8, d: u8)
    ensures
        (a ^ b) ^ (c ^ d) == (a ^ c) ^ (b ^ d),
{
    assert((a ^ b) ^ (c ^ d) == (a ^ c) ^ (b ^ d)) by (bit_vector);
}

proof fn lemma_xor_regroup6(a: u8, b: u8, c: u8, d: u8, e: u8, f: u8)
    ensures
        ((a ^ b) ^ (c ^ d)) ^ (e ^ f) == ((a ^ c) ^ e) ^ ((b ^ d) ^ f),
{
    assert(((a ^ b) ^ (c ^ d)) ^ (e ^ f) == ((a ^ c) ^ e) ^ ((b ^ d) ^ f)) by (bit_vector);
}

proof fn lemma_xor_regroup8(t1: u8, t2: u8, t3: u8, t4: u8, t5: u8, t6: u8, t7: u8, t8: u8)
    ensures
        ((t1 ^ t2) ^ ((t3 ^ t4) ^ t5)) ^ ((t6 ^ t7) ^ t8) == (((t1 ^ t3) ^ t6) ^ (t4 ^ t2)) ^ ((
        t7 ^ t5) ^ t8),
{
    assert(((t1 ^ t2) ^ ((t3 ^ t4) ^ t5)) ^ ((t6 ^ t7) ^ t8) == (((t1 ^ t3) ^ t6) ^ (t4 ^ t2)) ^ ((
    t7 ^ t5) ^ t8)) by (bit_vector);
}

proof fn lemma_xor_regroup5(t1: u8, t2: u8, t3: u8, t4: u8, t5: u8)
    ensures
        ((t1 ^ t2) ^ ((t3 ^ t4) ^ t5)) == ((t1 ^ t3) ^ ((t4 ^ t2) ^ t5)),
{
    assert(((t1 ^ t2) ^ ((t3 ^ t4) ^ t5)) == ((t1 ^ t3) ^ ((t4 ^ t2) ^ t5))) by (bit_vector);
}

/// Addition is associative and commutative, zero is its identity and every
/// element is its own negation.
pub proof fn lemma_gf16_add_laws(a: [u8; 2], b: [u8; 2], c: [u8; 2])
    ensures
        gf16_add(a, gf16_add(b, c)) == gf16_add(gf16_add(a, b), c),
        gf16_add(a, b) == gf16_add(b, a),
        gf16_add(a, gf16_zero()) == a,
        gf16_add(a, a) == gf16_zero(),
{
    lemma_add_associative(a[0], b[0], c[0]);
    lemma_add_associative(a[1], b[1], c[1]);
    lemma_add_group(a[0], b[0]);
    lemma_add_group(a[1], b[1]);
    assert(gf16_add(a, gf16_add(b, c)) =~= gf16_add(gf16_add(a, b), c));
    assert(gf16_add(a, b) =~= gf16_add(b, a));
    assert(gf16_add(a, gf16_zero()) =~= a);
    assert(gf16_add(a, a) =~= gf16_zero());
}

/// Multiplication is commutative.
pub proof fn lemma_gf16_mul_commutative(a: [u8; 2], b: [u8; 2])
    ensures
        gf16_mul(a, b) == gf16_mul(b, a),
{
    lemma_mul_commutative(a[1], b[0]);
    lemma_mul_commutative(a[0], b[1]);
    lemma_mul_commutative(a[0], b[0]);
    lemma_mul_commutative(a[1], b[1]);
    lemma_xor_swap(gf_mul(a[1], b[0]), gf_mul(a[0], b[1]), gf_mul(2, gf_mul(a[0], b[0])));
    assert(gf16_mul(a, b) =~= gf16_mul(b, a));
}

/// Multiplication distributes over addition.
pub proof fn lemma_gf16_mul_distributive(a: [u8; 2], b: [u8; 2], c: [u8; 2])
    ensures
        gf16_mul(a, gf16_add(b, c)) == gf16_add(gf16_mul(a, b), gf16_mul(a, c)),
        gf16_mul(gf16_add(b, c), a) == gf16_add(gf16_mul(b, a), gf16_mul(c, a)),
{
    let (ah, al) = (a[0], a[1]);
    lemma_mul_distributive(al, b[0], c[0]);
    lemma_mul_distributive(ah, b[1], c[1]);
    lemma_mul_distributive(ah, b[0], c[0]);
    lemma_mul_distributive(2, gf_mul(ah, b[0]), gf_mul(ah, c[0]));
    lemma_mul_distributive(al, b[1], c[1]);
    lemma_mul_distributive(128, gf_mul(ah, b[0]), gf_mul(ah, c[0]));
    lemma_xor_regroup6(
        gf_mul(al, b[0]),
        gf_mul(al, c[0]),
        gf_mul(ah, b[1]),
        gf_mul(ah, c[1]),
        gf_mul(2, gf_mul(ah, b[0])),
        gf_mul(2, gf_mul(ah, c[0])),
    );
    lemma_xor_regroup4(
        gf_mul(al, b[1]),
        gf_mul(al, c[1]),
        gf_mul(128, gf_mul(ah, b[0])),
        gf_mul(128, gf_mul(ah, c[0])),
    );
    assert(gf16_mul(a, gf16_add(b, c)) =~= gf16_add(gf16_mul(a, b), gf16_mul(a, c)));
    lemma_gf16_mul_commutative(a, gf16_add(b, c));
    lemma_gf16_mul_commutative(a, b);
    lemma_gf16_mul_commutative(a, c);
}

proof fn lemma_mul_assoc_scaled(k: u8, x: u8, y: u8, z: u8)
    ensures
        gf_mul(gf_mul(k, gf_mul(x, y)), z) == gf_mul(k, gf_mul(x, gf_mul(y, z))),
        gf_mul(x, gf_mul(k, gf_mul(y, z))) == gf_mul(k, gf_mul(x, gf_mul(y, z))),
{
    lemma_mul_associative(k, gf_mul(x, y), z);
    lemma_mul_associative(x, y, z);
    lemma_mul_associative(x, k, gf_mul(y, z));
    lemma_mul_associative(k, x, gf_mul(y, z));
    lemma_mul_commutative(x, k);
}

/// Multiplication is associative.
pub proof fn lemma_gf16_mul_associative(a: [u8; 2], b: [u8; 2], c: [u8; 2])
    ensures
        gf16_mul(gf16_mul(a, b), c) == gf16_mul(a, gf16_mul(b, c)),
{
    let (ah, al) = (a[0], a[1]);
    let (bh, bl) = (b[0], b[1]);
    let (ch, cl) = (c[0], c[1]);
    let ab = gf16_mul(a, b);
    let bc = gf16_mul(b, c);
    let hh = gf_mul(ah, bh);
    let bchh = gf_mul(bh, ch);
    // the X coefficient
    lemma_mul_distributive(ch, gf_mul(al, bl), gf_mul(128, hh));
    lemma_mul_distributive(cl, gf_mul(al, bh) ^ gf_mul(ah, bl), gf_mul(2, hh));
    lemma_mul_distributive(cl, gf_mul(al, bh), gf_mul(ah, bl));
    lemma_mul_distributive(ch, gf_mul(al, bh) ^ gf_mul(ah, bl), gf_mul(2, hh));
    lemma_mul_distributive(ch, gf_mul(al, bh), gf_mul(ah, bl));
    lemma_mul_distributive(
        2,
        gf_mul(gf_mul(al, bh), ch) ^ gf_mul(gf_mul(ah, bl), ch),
        gf_mul(gf_mul(2, hh), ch),
    );
    lemma_mul_distributive(2, gf_mul(gf_mul(al, bh), ch), gf_mul(gf_mul(ah, bl), ch));
    lemma_mul_distributive(al, gf_mul(bl, ch) ^ gf_mul(bh, cl), gf_mul(2, bchh));
    lemma_mul_distributive(al, gf_mul(bl, ch), gf_mul(bh, cl));
    lemma_mul_distributive(ah, gf_mul(bl, cl), gf_mul(128, bchh));
    lemma_mul_distributive(ah, gf_mul(bl, ch) ^ gf_mul(bh, cl), gf_mul(2, bchh));
    lemma_mul_distributive(ah, gf_mul(bl, ch), gf_mul(bh, cl));
    lemma_mul_distributive(
        2,
        gf_mul(ah, gf_mul(bl, ch)) ^ gf_mul(ah, gf_mul(bh, cl)),
        gf_mul(ah, gf_mul(2, bchh)),
    );
    lemma_mul_distributive(2, gf_mul(ah, gf_mul(bl, ch)), gf_mul(ah, gf_mul(bh, cl)));
    lemma_mul_associative(al, bl, ch);
    lemma_mul_assoc_scaled(128, ah, bh, ch);
    lemma_mul_associative(al, bh, cl);
    lemma_mul_associative(ah, bl, cl);
    lemma_mul_assoc_scaled(2, ah, bh, cl);
    lemma_mul_associative(al, bh, ch);
    lemma_mul_assoc_scaled(2, al, bh, ch);
    lemma_mul_associative(ah, bl, ch);
    lemma_mul_assoc_scaled(2, ah, bh, ch);
    lemma_mul_associative(ah, bh, ch);
    lemma_mul_associative(ah, bh, cl);
    lemma_mul_associative(al, bh, ch);
    let t1 = gf_mul(al, gf_mul(bl, ch));
    let t2 = gf_mul(128, gf_mul(ah, bchh));
    let t3 = gf_mul(al, gf_mul(bh, cl));
    let t4 = gf_mul(ah, gf_mul(bl, cl));
    let t5 = gf_mul(2, gf_mul(ah, gf_mul(bh, cl)));
    let t6 = gf_mul(2, gf_mul(al, bchh));
    let t7 = gf_mul(2, gf_mul(ah, gf_mul(bl, ch)));
    let t8 = gf_mul(2, gf_mul(2, gf_mul(ah, bchh)));
    assert(gf_mul(gf_mul(2, hh), ch) == gf_mul(2, gf_mul(ah, bchh)));
    assert(gf_mul(ah, gf_mul(2, bchh)) == gf_mul(2, gf_mul(ah, bchh)));
    assert(mul_hi(ab, c) == ((t1 ^ t2) ^ ((t3 ^ t4) ^ t5)) ^ ((t6 ^ t7) ^ t8));
    assert(mul_hi(a, bc) == (((t1 ^ t3) ^ t6) ^ (t4 ^ t2)) ^ ((t7 ^ t5) ^ t8));
    lemma_xor_regroup8(t1, t2, t3, t4, t5, t6, t7, t8);
    // the constant coefficient
    lemma_mul_distributive(cl, gf_mul(al, bl), gf_mul(128, hh));
    lemma_mul_distributive(
        128,
        gf_mul(gf_mul(al, bh), ch) ^ gf_mul(gf_mul(ah, bl), ch),
        gf_mul(gf_mul(2, hh), ch),
    );
    lemma_mul_distributive(128, gf_mul(gf_mul(al, bh), ch), gf_mul(gf_mul(ah, bl), ch));
    lemma_mul_distributive(al, gf_mul(bl, cl), gf_mul(128, bchh));
    lemma_mul_distributive(
        128,
        gf_mul(ah, gf_mul(bl, ch)) ^ gf_mul(ah, gf_mul(bh, cl)),
        gf_mul(ah, gf_mul(2, bchh)),
    );
    lemma_mul_distributive(128, gf_mul(ah, gf_mul(bl, ch)), gf_mul(ah, gf_mul(bh, cl)));
    lemma_mul_associative(al, bl, cl);
    lemma_mul_assoc_scaled(128, ah, bh, cl);
    lemma_mul_assoc_scaled(128, al, bh, ch);
    let s1 = gf_mul(al, gf_mul(bl, cl));
    let s2 = gf_mul(128, gf_mul(ah, gf_mul(bh, cl)));
    let s3 = gf_mul(128, gf_mul(al, bchh));
    let s4 = gf_mul(128, gf_mul(ah, gf_mul(bl, ch)));
    let s5 = gf_mul(128, gf_mul(2, gf_mul(ah, bchh)));
    assert(mul_lo(ab, c) == (s1 ^ s2) ^ ((s3 ^ s4) ^ s5));
    assert(mul_lo(a, bc) == (s1 ^ s3) ^ ((s4 ^ s2) ^ s5));
    lemma_xor_regroup5(s1, s2, s3, s4, s5);
    assert(gf16_mul(gf16_mul(a, b), c) =~= gf16_mul(a, gf16_mul(b, c)));
}


/// What `const_egcd` needs of its operands so that the gcd it finds is a
/// non-zero constant.
spec fn egcd_pre(s: [u8; 2], rhs: EgcdRhs) -> bool {
    match rhs {
        EgcdRhs::ExtPoly => rank(s) > 0,
        EgcdRhs::Element(e) => rank(e.0) > rank(s) && (rank(s) == 0 ==> rank(e.0) == 1),
    }
}

proof fn lemma_xor_cancel(x: u8, y: u8)
    ensures
        x ^ (y ^ x) == y,
        (x ^ y) ^ (y ^ x) == 0u8,
        x ^ y == 0u8 ==> x == y,
{
    assert(x ^ (y ^ x) == y) by (bit_vector);
    assert((x ^ y) ^ (y ^ x) == 0u8) by (bit_vector);
    assert(x ^ y == 0u8 ==> x == y) by (bit_vector);
}

/// `i * c == 1` lets `i` undo a multiplication by `c`.
proof fn lemma_scale_cancel(i: u8, c: u8, s: u8)
    requires
        gf_mul(i, c) == 1,
    ensures
        gf_mul(gf_mul(i, s), c) == s,
{
    lemma_mul_commutative(i, s);
    lemma_mul_associative(s, i, c);
    lemma_mul_identity(s);
}

/// Scaling by a byte is multiplication by a constant element.
proof fn lemma_scale_is_mul(x: [u8; 2], k: u8)
    ensures
        [gf_mul(k, x[0]), gf_mul(k, x[1])] == gf16_mul(x, gf16_constant(k)),
{
    lemma_mul_identity(x[0]);
    lemma_mul_identity(x[1]);
    lemma_mul_identity(2);
    lemma_mul_identity(128);
    lemma_mul_commutative(k, x[0]);
    lemma_mul_commutative(k, x[1]);
    lemma_xor_zero(0);
    lemma_xor_zero(gf_mul(x[0], k));
    lemma_xor_zero(gf_mul(x[1], k));
    assert([gf_mul(k, x[0]), gf_mul(k, x[1])] =~= gf16_mul(x, gf16_constant(k)));
}

proof fn lemma_constant_mul(g: u8, h: u8)
    ensures
        gf16_mul(gf16_constant(g), gf16_constant(h)) == gf16_constant(gf_mul(g, h)),
{
    lemma_mul_identity(g);
    lemma_mul_identity(h);
    lemma_mul_identity(0);
    lemma_mul_identity(2);
    lemma_mul_identity(128);
    lemma_xor_zero(0);
    lemma_xor_zero(gf_mul(g, h));
    assert(gf16_mul(gf16_constant(g), gf16_constant(h)) =~= gf16_constant(gf_mul(g, h)));
}

proof fn lemma_xor_pair_cancel(x: u8, y: u8, z: u8)
    ensures
        (x ^ y) ^ (y ^ z) == z ^ x,
{
    assert((x ^ y) ^ (y ^ z) == z ^ x) by (bit_vector);
}

proof fn lemma_pair_cancel(a: [u8; 2], b: [u8; 2], d: [u8; 2])
    ensures
        gf16_add(gf16_add(a, b), gf16_add(b, d)) == gf16_add(d, a),
{
    lemma_xor_pair_cancel(a[0], b[0], d[0]);
    lemma_xor_pair_cancel(a[1], b[1], d[1]);
    assert(gf16_add(gf16_add(a, b), gf16_add(b, d)) =~= gf16_add(d, a));
}

/// One step of the extended Euclidean algorithm: if `q * s + r == v` and
/// `x * r + y * s == c`, then `(y + q * x) * s + x * v == c`.
proof fn lemma_egcd_step(
    s: [u8; 2],
    v: [u8; 2],
    q: [u8; 2],
    r: [u8; 2],
    x: [u8; 2],
    y: [u8; 2],
    c: [u8; 2],
)
    requires
        gf16_add(gf16_mul(q, s), r) == v,
        gf16_add(gf16_mul(x, r), gf16_mul(y, s)) == c,
    ensures
        gf16_add(gf16_mul(gf16_add(y, gf16_mul(q, x)), s), gf16_mul(x, v)) == c,
{
    let qx = gf16_mul(q, x);
    lemma_gf16_mul_distributive(s, y, qx);
    lemma_gf16_mul_commutative(gf16_add(y, qx), s);
    lemma_gf16_mul_commutative(y, s);
    lemma_gf16_mul_commutative(qx, s);
    lemma_gf16_mul_distributive(x, gf16_mul(q, s), r);
    lemma_gf16_mul_associative(x, q, s);
    lemma_gf16_mul_commutative(x, q);
    lemma_pair_cancel(gf16_mul(y, s), gf16_mul(qx, s), gf16_mul(x, r));
}

/// The division of `X^2 + 2*X + 128` by `r0*X + r1` (with `i * r0 == 1`), as
/// `div_ext_by` carries it out, leaves a non-zero constant remainder and a
/// quotient whose product with the divisor cancels it.
proof fn lemma_ext_division(r0: u8, r1: u8, i: u8)
    requires
        gf_mul(i, r0) == 1,
    ensures
        ({
            let m1 = gf_mul(i, r1);
            let p1 = if r1 != 0 { 2u8 ^ gf_mul(m1, 1u8) } else { 2u8 };
            let p2 = if r1 != 0 { 128u8 ^ gf_mul(m1, p1) } else { 128u8 };
            let q = [gf_mul(i, 1u8), gf_mul(i, p1)];
            &&& gf16_add(gf16_mul(q, [r0, r1]), [0u8, p2]) == gf16_zero()
            &&& p2 != 0
        }),
{
    let m1 = gf_mul(i, r1);
    let p1 = 2u8 ^ m1;
    lemma_mul_identity(i);
    lemma_mul_identity(m1);
    lemma_mul_identity(p1);
    lemma_mul_identity(r0);
    lemma_mul_identity(2);
    lemma_mul_identity(128);
    lemma_xor_zero(2);
    lemma_xor_zero(128);
    lemma_scale_cancel(i, r0, p1);
    lemma_mul_associative(i, p1, r1);
    lemma_mul_commutative(p1, r1);
    lemma_mul_associative(i, r1, p1);
    assert((p1 ^ m1) ^ 2u8 == 0u8) by (bit_vector)
        requires
            p1 == 2u8 ^ m1,
    ;
    let x = gf_mul(m1, p1);
    assert((x ^ 128u8) ^ (128u8 ^ x) == 0u8) by (bit_vector);
    assert(0u8 ^ 0u8 == 0u8) by (bit_vector);
    let q = [gf_mul(i, 1u8), gf_mul(i, p1)];
    assert(gf16_mul(q, [r0, r1]) =~= [0u8, x ^ 128u8]);
    assert(gf16_add(gf16_mul(q, [r0, r1]), [0u8, 128u8 ^ x]) =~= gf16_zero());
    lemma_quadratic_has_no_root(m1);
    lemma_mul_commutative(m1, p1);
    lemma_xor_cancel(128u8, x);
}

/// From `x * s + y * 0 == g` and `n * g == 1`, scaling `x` by `n` gives an
/// inverse of `s`.
proof fn lemma_inverse_from_egcd(s: [u8; 2], x: [u8; 2], y: [u8; 2], g: u8, n: u8)
    requires
        gf16_add(gf16_mul(x, s), gf16_mul(y, gf16_zero())) == gf16_constant(g),
        gf_mul(n, g) == 1,
    ensures
        gf16_mul(s, [gf_mul(n, x[0]), gf_mul(n, x[1])]) == gf16_one(),
{
    lemma_gf16_mul_zero(y);
    lemma_gf16_add_laws(gf16_mul(x, s), gf16_zero(), gf16_zero());
    lemma_scale_is_mul(x, n);
    lemma_gf16_mul_associative(s, x, gf16_constant(n));
    lemma_gf16_mul_commutative(s, x);
    lemma_constant_mul(g, n);
    lemma_mul_commutative(g, n);
    assert(gf16_constant(1) =~= gf16_one());
}

impl Element {
    /// Divides `self` by `rhs` as polynomials of degree at most one.
    fn polynom_div(self, rhs: Element) -> (res: (Element, Element))
        ensures
            rank(rhs.0) == 0 ==> res.0.0 == gf16_zero() && res.1 == self,
            rank(rhs.0) > 0 ==> gf16_add(gf16_mul(res.0.0, rhs.0), res.1.0) == self.0 && rank(
                res.1.0,
            ) < rank(rhs.0),
    {
        let divisor_degree = rhs.degree();
        if rhs.is_zero() {
            (Element::zero(), self)
        } else if self.degree() < divisor_degree {
            proof {
                lemma_gf16_mul_zero(rhs.0);
                lemma_gf16_add_laws(self.0, self.0, self.0);
                lemma_gf16_add_laws(gf16_zero(), self.0, self.0);
            }
            (Element::zero(), self)
        } else if divisor_degree == 0 {
            let c = rhs.0[1];
            let invert = galois_8::div(1, c);
            let quotient = Element([galois_8::mul(invert, self.0[0]), galois_8::mul(invert, self.0[1])]);
            proof {
                lemma_scale_cancel(invert, c, self.0[0]);
                lemma_scale_cancel(invert, c, self.0[1]);
                lemma_mul_identity(quotient.0[0]);
                lemma_mul_identity(quotient.0[1]);
                lemma_mul_identity(2);
                lemma_mul_identity(128);
                lemma_xor_zero(0);
                lemma_xor_zero(self.0[0]);
                lemma_xor_zero(self.0[1]);
                assert(gf16_add(gf16_mul(quotient.0, rhs.0), gf16_zero()) =~= self.0);
            }
            (quotient, Element::zero())
        } else {
            let leading_mul_inv = galois_8::div(1, rhs.0[0]);
            let monic = Element(
                [galois_8::mul(leading_mul_inv, rhs.0[0]), galois_8::mul(leading_mul_inv, rhs.0[1])],
            );
            let leading_coeff = self.0[0];
            let mut remainder = self.0[1];
            if monic.0[1] != 0 {
                remainder = remainder ^ galois_8::mul(monic.0[1], self.0[0]);
            } else {
                proof {
                    lemma_mul_identity(self.0[0]);
                    lemma_xor_zero(remainder);
                }
            }
            let quotient = Element::constant(galois_8::mul(leading_mul_inv, leading_coeff));
            let rem = Element::constant(remainder);
            proof {
                let (r0, r1) = (rhs.0[0], rhs.0[1]);
                let (s0, s1) = (self.0[0], self.0[1]);
                let i = leading_mul_inv;
                lemma_scale_cancel(i, r0, s0);
                lemma_mul_identity(r1);
                lemma_mul_identity(r0);
                lemma_mul_identity(2);
                lemma_mul_identity(128);
                lemma_mul_associative(i, s0, r1);
                lemma_mul_associative(i, r1, s0);
                lemma_mul_commutative(s0, r1);
                lemma_xor_zero(0);
                lemma_xor_zero(s0);
                lemma_xor_zero(gf_mul(gf_mul(i, s0), r1));
                lemma_xor_cancel(gf_mul(gf_mul(i, s0), r1), s1);
                assert(gf16_add(gf16_mul(quotient.0, rhs.0), rem.0) =~= self.0);
            }
            (quotient, rem)
        }
    }

    /// Divides the extension polynomial by `rhs`. The polynomial is zero in
    /// the field, so quotient times `rhs` plus remainder is zero.
    fn div_ext_by(rhs: Element) -> (res: (Element, Element))
        requires
            rank(rhs.0) > 0,
        ensures
            gf16_add(gf16_mul(res.0.0, rhs.0), res.1.0) == gf16_zero(),
            rank(res.1.0) < rank(rhs.0),
            rank(rhs.0) == 2 ==> rank(res.1.0) == 1,
    {
        if rhs.degree() == 0 {
            proof {
                lemma_gf16_mul_zero(rhs.0);
                lemma_gf16_add_laws(gf16_zero(), gf16_zero(), gf16_zero());
            }
            return (Element::zero(), Element::zero());
        }
        let leading_mul_inv = galois_8::div(1, rhs.0[0]);
        let monictized = rhs.mul_scalar(leading_mul_inv);
        let poly0 = EXT_POLY[0];
        let mut poly1 = EXT_POLY[1];
        let mut poly2 = EXT_POLY[2];
        // first step: eliminate X^2
        if rhs.0[1] != 0 {
            poly1 = poly1 ^ galois_8::mul(monictized.0[1], poly0);
        }
        // second step: eliminate X
        if rhs.0[1] != 0 {
            poly2 = poly2 ^ galois_8::mul(monictized.0[1], poly1);
        }
        let remainder = Element::constant(poly2);
        let quotient = Element([poly0, poly1]).mul_scalar(leading_mul_inv);
        proof {
            lemma_ext_division(rhs.0[0], rhs.0[1], leading_mul_inv);
            assert(remainder.0 =~= [0u8, poly2]);
            assert(quotient.0 =~= [gf_mul(leading_mul_inv, 1u8), gf_mul(leading_mul_inv, poly1)]);
        }
        (quotient, remainder)
    }

    /// Extended Euclid on `self` and `rhs`: returns `(g, x, y)` with
    /// `x * self + y * rhs == g`, where `g` is a non-zero constant.
    fn const_egcd(self, rhs: EgcdRhs) -> (res: (u8, Element, Element))
        requires
            egcd_pre(self.0, rhs),
        ensures
            res.0 != 0,
            gf16_add(gf16_mul(res.1.0, self.0), gf16_mul(res.2.0, rhs_value(rhs))) == gf16_constant(
                res.0,
            ),
        decreases rank(self.0),
    {
        if self.is_zero() {
            let rhs_elem = match rhs {
                EgcdRhs::Element(elem) => elem,
                EgcdRhs::ExtPoly => Element::constant(1),
            };
            proof {
                lemma_gf16_mul_zero(self.0);
                lemma_gf16_mul_one(rhs_elem.0);
                lemma_gf16_add_laws(rhs_elem.0, gf16_zero(), gf16_zero());
                lemma_gf16_add_laws(gf16_zero(), rhs_elem.0, gf16_zero());
                assert(rhs_elem.0 =~= gf16_constant(rhs_elem.0[1]));
            }
            (rhs_elem.0[1], Element::constant(0), Element::constant(1))
        } else {
            let (cur_quotient, cur_remainder) = match rhs {
                EgcdRhs::Element(rhs) => rhs.polynom_div(self),
                EgcdRhs::ExtPoly => Element::div_ext_by(self),
            };
            let (g, x, y) = cur_remainder.const_egcd(EgcdRhs::Element(self));
            proof {
                lemma_egcd_step(
                    self.0,
                    rhs_value(rhs),
                    cur_quotient.0,
                    cur_remainder.0,
                    x.0,
                    y.0,
                    gf16_constant(g),
                );
            }
            (g, y.add(cur_quotient.mul(x)), x)
        }
    }

    /// The multiplicative inverse; zero for zero.
    pub fn inverse(self) -> (r: Element)
        ensures
            self.0 == gf16_zero() ==> r.0 == gf16_zero(),
            self.0 != gf16_zero() ==> gf16_mul(self.0, r.0) == gf16_one(),
    {
        if self.is_zero() {
            assert(self.0 =~= gf16_zero());
            return Element::zero();
        }
        let (gcd, y, ext_coeff) = self.const_egcd(EgcdRhs::ExtPoly);
        if gcd != 0 {
            let normalizer = galois_8::div(1, gcd);
            let r = y.mul_scalar(normalizer);
            proof {
                lemma_inverse_from_egcd(self.0, y.0, ext_coeff.0, gcd, normalizer);
                assert(r.0 =~= [gf_mul(normalizer, y.0[0]), gf_mul(normalizer, y.0[1])]);
            }
            r
        } else {
            Element::zero()
        }
    }

    /// Division: `self * rhs^-1`, zero when `rhs` is zero.
    pub fn div(self, rhs: Element) -> (r: Element)
        ensures
            rhs.0 == gf16_zero() ==> r.0 == gf16_zero(),
            rhs.0 != gf16_zero() ==> gf16_mul(r.0, rhs.0) == self.0,
    {
        let inv = rhs.inverse();
        let r = self.mul(inv);
        proof {
            lemma_gf16_mul_zero(self.0);
            lemma_gf16_mul_associative(self.0, inv.0, rhs.0);
            lemma_gf16_mul_commutative(inv.0, rhs.0);
            lemma_gf16_mul_one(self.0);
        }
        r
    }
}

/// The tower decomposition of a product: with `elem = cx*X + cc` and
/// `input = ax*X + ac`, the product is `(A*ax + B*ac)*X + (C*ax + D*ac)` where
/// `A = cc + 2*cx`, `B = cx`, `C = 128*cx`, `D = cc`.
proof fn lemma_tower(elem: [u8; 2], input: [u8; 2])
    ensures
        gf16_mul(elem, input) == [
            gf_mul(elem[1] ^ gf_mul(2, elem[0]), input[0]) ^ gf_mul(elem[0], input[1]),
            gf_mul(gf_mul(128, elem[0]), input[0]) ^ gf_mul(elem[1], input[1]),
        ],
{
    let (cx, cc) = (elem[0], elem[1]);
    let (ax, ac) = (input[0], input[1]);
    lemma_mul_distributive(ax, cc, gf_mul(2, cx));
    lemma_mul_commutative(ax, cc ^ gf_mul(2, cx));
    lemma_mul_commutative(ax, cc);
    lemma_mul_commutative(ax, gf_mul(2, cx));
    lemma_mul_associative(2, cx, ax);
    lemma_mul_associative(128, cx, ax);
    lemma_xor_regroup3(gf_mul(cc, ax), gf_mul(cx, ac), gf_mul(2, gf_mul(cx, ax)));
    lemma_xor_swap2(gf_mul(cc, ac), gf_mul(128, gf_mul(cx, ax)));
    assert(gf16_mul(elem, input) =~= [
        gf_mul(cc ^ gf_mul(2, cx), ax) ^ gf_mul(cx, ac),
        gf_mul(gf_mul(128, cx), ax) ^ gf_mul(cc, ac),
    ]);
}

proof fn lemma_xor_regroup3(a: u8, b: u8, c: u8)
    ensures
        (a ^ b) ^ c == (a ^ c) ^ b,
{
    assert((a ^ b) ^ c == (a ^ c) ^ b) by (bit_vector);
}

proof fn lemma_xor_swap2(a: u8, b: u8)
    ensures
        a ^ b == b ^ a,
{
    assert(a ^ b == b ^ a) by (bit_vector);
}

proof fn lemma_xor_assoc3(a: u8, b: u8, c: u8)
    ensures
        (a ^ b) ^ c == a ^ (b ^ c),
{
    assert((a ^ b) ^ c == a ^ (b ^ c)) by (bit_vector);
}

/// Splits interleaved element bytes into two planes:
/// `even[i] = src[2*i]`, `odd[i] = src[2*i + 1]`.
pub fn deinterleave_scalar(src: &[u8], even: &mut [u8], odd: &mut [u8])
    requires
        src@.len() == 2 * old(even)@.len(),
        old(even)@.len() == old(odd)@.len(),
    ensures
        final(even)@.len() == old(even)@.len(),
        final(odd)@.len() == old(odd)@.len(),
        forall|i: int|
            0 <= i < final(even)@.len() ==> #[trigger] final(even)@[i] == src@[2 * i]
                && final(odd)@[i] == src@[2 * i + 1],
{
    let n = even.len();
    let m = src.len();
    let mut i: usize = 0;
    while i < n
        invariant
            n == even@.len(),
            n == odd@.len(),
            m == src@.len(),
            m == 2 * n,
            i <= n,
            forall|j: int| 0 <= j < i ==> #[trigger] even@[j] == src@[2 * j] && odd@[j] == src@[2 * j + 1],
        decreases n - i,
    {
        let ghost prev_even = even@;
        let ghost prev_odd = odd@;
        even[i] = src[2 * i];
        odd[i] = src[2 * i + 1];
        proof {
            assert forall|j: int| 0 <= j < i + 1 implies #[trigger] even@[j] == src@[2 * j] && odd@[j]
                == src@[2 * j + 1] by {
                if j < i {
                    assert(prev_even[j] == src@[2 * j]);
                }
            }
        }
        i = i + 1;
    }
}

/// Joins two byte planes back into element bytes:
/// `dst[2*i] = even[i]`, `dst[2*i + 1] = odd[i]`.
pub fn interleave_scalar(even: &[u8], odd: &[u8], dst: &mut [u8])
    requires
        old(dst)@.len() == 2 * even@.len(),
        even@.len() == odd@.len(),
    ensures
        final(dst)@.len() == old(dst)@.len(),
        forall|i: int|
            0 <= i < even@.len() ==> #[trigger] final(dst)@[2 * i] == even@[i] && final(dst)@[2 * i + 1]
                == odd@[i],
{
    let n = even.len();
    let m = dst.len();
    let mut i: usize = 0;
    while i < n
        invariant
            n == even@.len(),
            n == odd@.len(),
            m == dst@.len(),
            m == 2 * n,
            i <= n,
            forall|j: int| 0 <= j < i ==> #[trigger] dst@[2 * j] == even@[j] && dst@[2 * j + 1] == odd@[j],
        decreases n - i,
    {
        let ghost prev = dst@;
        dst[2 * i] = even[i];
        dst[2 * i + 1] = odd[i];
        proof {
            assert forall|j: int| 0 <= j < i + 1 implies #[trigger] dst@[2 * j] == even@[j] && dst@[2 * j
                + 1] == odd@[j] by {
                if j < i {
                    assert(prev[2 * j] == even@[j]);
                    assert(prev[2 * j + 1] == odd@[j]);
                }
            }
        }
        i = i + 1;
    }
}

/// The bytes of `count` elements starting at `offset`, one after another.
fn flatten_elems(input: &[[u8; 2]], offset: usize, count: usize) -> (r: Vec<u8>)
    requires
        offset + count <= input@.len(),
    ensures
        r@.len() == 2 * count,
        forall|i: int|
            0 <= i < count ==> #[trigger] r@[2 * i] == input@[offset + i][0] && r@[2 * i + 1]
                == input@[offset + i][1],
{
    let mut r: Vec<u8> = Vec::new();
    let len = input.len();
    let mut i: usize = 0;
    while i < count
        invariant
            len == input@.len(),
            offset + count <= len,
            i <= count,
            r@.len() == 2 * i,
            forall|j: int|
                0 <= j < i ==> #[trigger] r@[2 * j] == input@[offset + j][0] && r@[2 * j + 1]
                    == input@[offset + j][1],
        decreases count - i,
    {
        let e = input[offset + i];
        let ghost prev = r@;
        r.push(e[0]);
        r.push(e[1]);
        proof {
            assert forall|j: int| 0 <= j < i + 1 implies #[trigger] r@[2 * j] == input@[offset + j][0]
                && r@[2 * j + 1] == input@[offset + j][1] by {
                if j < i {
                    assert(prev[2 * j] == input@[offset + j][0]);
                    assert(prev[2 * j + 1] == input@[offset + j][1]);
                }
            }
        }
        i = i + 1;
    }
    r
}

/// What slice multiplication leaves in place `i`: the product, or the old
/// value plus the product when accumulating.
pub open spec fn mul_slice_result(elem: [u8; 2], input: [u8; 2], old_out: [u8; 2], accumulate: bool) -> [u8; 2] {
    if accumulate {
        gf16_add(old_out, gf16_mul(elem, input))
    } else {
        gf16_mul(elem, input)
    }
}

/// The `X` byte plane of a slice product: `A*ax + B*ac`, plus the old byte
/// when accumulating.
spec fn plane_x(elem: [u8; 2], input: [u8; 2], old_out: [u8; 2], accumulate: bool) -> u8 {
    let a = elem[1] ^ gf_mul(2, elem[0]);
    let start = if accumulate {
        old_out[0] ^ gf_mul(a, input[0])
    } else {
        gf_mul(a, input[0])
    };
    start ^ gf_mul(elem[0], input[1])
}

/// The constant byte plane of a slice product: `C*ax + D*ac`, plus the old
/// byte when accumulating.
spec fn plane_c(elem: [u8; 2], input: [u8; 2], old_out: [u8; 2], accumulate: bool) -> u8 {
    let c = gf_mul(128, elem[0]);
    let start = if accumulate {
        old_out[1] ^ gf_mul(c, input[0])
    } else {
        gf_mul(c, input[0])
    };
    start ^ gf_mul(elem[1], input[1])
}

/// `out[i] = elem * input[i]`, or `out[i] += elem * input[i]` when
/// `accumulate`, through two GF(2^8) byte planes per chunk of elements.
fn gf16_mul_slice(elem: [u8; 2], input: &[[u8; 2]], out: &mut [[u8; 2]], accumulate: bool)
    requires
        input@.len() == old(out)@.len(),
    ensures
        final(out)@.len() == old(out)@.len(),
        forall|i: int|
            0 <= i < input@.len() ==> #[trigger] final(out)@[i] == mul_slice_result(
                elem,
                input@[i],
                old(out)@[i],
                accumulate,
            ),
{
    let cx = elem[0];
    let cc = elem[1];
    let coef_a = cc ^ galois_8::mul(2, cx);
    let coef_b = cx;
    let coef_c = galois_8::mul(128, cx);
    let coef_d = cc;
    let chunk: usize = 1024;
    let len = input.len();
    let mut offset: usize = 0;
    while offset < len
        invariant
            len == input@.len(),
            len == out@.len(),
            offset <= len,
            coef_a == cc ^ gf_mul(2, cx),
            coef_b == cx,
            coef_c == gf_mul(128, cx),
            coef_d == cc,
            cx == elem[0],
            cc == elem[1],
            chunk == 1024,
            forall|j: int|
                0 <= j < offset ==> #[trigger] out@[j] == mul_slice_result(
                    elem,
                    input@[j],
                    old(out)@[j],
                    accumulate,
                ),
            forall|j: int| offset <= j < len ==> #[trigger] out@[j] == old(out)@[j],
        decreases len - offset,
    {
        let n = if chunk < len - offset {
            chunk
        } else {
            len - offset
        };
        let src = flatten_elems(input, offset, n);
        let mut ax: Vec<u8> = vec![0u8; n];
        let mut ac: Vec<u8> = vec![0u8; n];
        deinterleave_scalar(&src, &mut ax, &mut ac);
        assert(ax@.len() == n);
        assert forall|k: int| 0 <= k < n implies #[trigger] ac@[k] == src@[2 * k + 1] by {
            assert(ax@[k] == src@[2 * k]);
        }
        assert forall|k: int| 0 <= k < n implies #[trigger] ax@[k] == input@[offset + k][0] && ac@[k]
            == input@[offset + k][1] by {
            assert(ax@[k] == src@[2 * k]);
            assert(ac@[k] == src@[2 * k + 1]);
            assert(src@[2 * k] == input@[offset + k][0]);
        }
        let mut ox: Vec<u8> = vec![0u8; n];
        let mut oc: Vec<u8> = vec![0u8; n];
        if accumulate {
            let dst_src = flatten_elems(out, offset, n);
            deinterleave_scalar(&dst_src, &mut ox, &mut oc);
            let ghost ox0 = ox@;
            let ghost oc0 = oc@;
            galois_8::mul_slice_xor(coef_a, ax.as_slice(), ox.as_mut_slice());
            let ghost ox1 = ox@;
            galois_8::mul_slice_xor(coef_b, ac.as_slice(), ox.as_mut_slice());
            galois_8::mul_slice_xor(coef_c, ax.as_slice(), oc.as_mut_slice());
            let ghost oc1 = oc@;
            galois_8::mul_slice_xor(coef_d, ac.as_slice(), oc.as_mut_slice());
            proof {
                assert forall|k: int| 0 <= k < n implies #[trigger] ox@[k] == plane_x(
                    elem,
                    input@[offset + k],
                    old(out)@[offset + k],
                    accumulate,
                ) && oc@[k] == plane_c(elem, input@[offset + k], old(out)@[offset + k], accumulate) by {
                    assert(ox0[k] == dst_src@[2 * k]);
                    assert(oc0[k] == dst_src@[2 * k + 1]);
                    assert(dst_src@[2 * k] == out@[offset + k][0]);
                    assert(out@[offset + k] == old(out)@[offset + k]);
                    assert(ox1[k] == ox0[k] ^ gf_mul(coef_a, ax@[k]));
                    assert(oc1[k] == oc0[k] ^ gf_mul(coef_c, ax@[k]));
                    assert(ax@[k] == input@[offset + k][0]);
                }
            }
        } else {
            galois_8::mul_slice(coef_a, ax.as_slice(), ox.as_mut_slice());
            let ghost ox1 = ox@;
            galois_8::mul_slice_xor(coef_b, ac.as_slice(), ox.as_mut_slice());
            galois_8::mul_slice(coef_c, ax.as_slice(), oc.as_mut_slice());
            let ghost oc1 = oc@;
            galois_8::mul_slice_xor(coef_d, ac.as_slice(), oc.as_mut_slice());
            proof {
                assert forall|k: int| 0 <= k < n implies #[trigger] ox@[k] == plane_x(
                    elem,
                    input@[offset + k],
                    old(out)@[offset + k],
                    accumulate,
                ) && oc@[k] == plane_c(elem, input@[offset + k], old(out)@[offset + k], accumulate) by {
                    assert(ox1[k] == gf_mul(coef_a, ax@[k]));
                    assert(oc1[k] == gf_mul(coef_c, ax@[k]));
                    assert(ax@[k] == input@[offset + k][0]);
                }
            }
        }
        let mut dst: Vec<u8> = vec![0u8; 2 * n];
        interleave_scalar(ox.as_slice(), oc.as_slice(), dst.as_mut_slice());
        assert forall|k: int| 0 <= k < n implies #[trigger] dst@[2 * k] == ox@[k] && dst@[2 * k + 1]
            == oc@[k] by {
            assert(dst@[2 * k] == ox@[k]);
        }
        let dlen = dst.len();
        let ghost before = out@;
        let mut i: usize = 0;
        while i < n
            invariant
                offset + n <= len,
                len == input@.len(),
                len == out@.len(),
                i <= n,
                dst@.len() == 2 * n,
                dlen == 2 * n,
                ox@.len() == n,
                oc@.len() == n,
                forall|k: int| 0 <= k < n ==> #[trigger] dst@[2 * k] == ox@[k] && dst@[2 * k + 1] == oc@[k],
                forall|j: int| 0 <= j < len && !(offset <= j < offset + i) ==> #[trigger] out@[j] == before[j],
                forall|k: int| 0 <= k < i ==> #[trigger] out@[offset + k] == [ox@[k], oc@[k]],
            decreases n - i,
        {
            out[offset + i] = [dst[2 * i], dst[2 * i + 1]];
            i = i + 1;
        }
        proof {
            assert forall|k: int| 0 <= k < n implies #[trigger] out@[offset + k] == mul_slice_result(
                elem,
                input@[offset + k],
                old(out)@[offset + k],
                accumulate,
            ) by {
                let inp = input@[offset + k];
                let o = old(out)@[offset + k];
                assert(ox@[k] == plane_x(elem, inp, o, accumulate));
                lemma_tower(elem, inp);
                if accumulate {
                    lemma_xor_assoc3(o[0], gf_mul(coef_a, inp[0]), gf_mul(coef_b, inp[1]));
                    lemma_xor_assoc3(o[1], gf_mul(coef_c, inp[0]), gf_mul(coef_d, inp[1]));
                    assert(out@[offset + k] =~= gf16_add(o, gf16_mul(elem, inp)));
                } else {
                    assert(out@[offset + k] =~= gf16_mul(elem, inp));
                }
            }
            assert forall|j: int| 0 <= j < offset + n implies #[trigger] out@[j] == mul_slice_result(
                elem,
                input@[j],
                old(out)@[j],
                accumulate,
            ) by {
                if j >= offset {
                    let k = j - offset;
                    assert(out@[offset + k] == out@[j]);
                }
            }
        }
        offset = offset + n;
    }
}

/// The field GF(2^16), built as a quadratic extension of GF(2^8).
#[derive(Debug, Default, Copy, Clone, PartialEq, Eq)]
pub struct Field;

/// The number of elements of GF(2^16).
pub const GF16_ORDER: usize = 65536;

/// The element with index `n`: its high byte first.
pub open spec fn gf16_nth(n: usize) -> [u8; 2] {
    [((n / 256) % 256) as u8, (n % 256) as u8]
}

impl Field {
    /// Add two elements.
    pub fn add(a: [u8; 2], b: [u8; 2]) -> (r: [u8; 2])
        ensures
            r == gf16_add(a, b),
    {
        Element(a).add(Element(b)).0
    }

    /// Multiply two elements.
    pub fn mul(a: [u8; 2], b: [u8; 2]) -> (r: [u8; 2])
        ensures
            r == gf16_mul(a, b),
    {
        Element(a).mul(Element(b)).0
    }

    /// Divide `a` by `b`; zero when `b` is zero.
    pub fn div(a: [u8; 2], b: [u8; 2]) -> (r: [u8; 2])
        ensures
            b == gf16_zero() ==> r == gf16_zero(),
            b != gf16_zero() ==> gf16_mul(r, b) == a,
    {
        Element(a).div(Element(b)).0
    }

    /// Raise `elem` to the `n`-th power.
    pub fn exp(elem: [u8; 2], n: usize) -> (r: [u8; 2])
        ensures
            r == gf16_pow(elem, n as nat),
    {
        Element(elem).exp(n).0
    }

    /// The additive identity.
    pub fn zero() -> (r: [u8; 2])
        ensures
            r == gf16_zero(),
    {
        [0; 2]
    }

    /// The multiplicative identity.
    pub fn one() -> (r: [u8; 2])
        ensures
            r == gf16_one(),
    {
        [0, 1]
    }

    /// The element with index `n`, for `n` below the order.
    pub fn nth_internal(n: usize) -> (r: [u8; 2])
        ensures
            r == gf16_nth(n),
    {
        let r = [(n >> 8) as u8, n as u8];
        proof {
            assert((n >> 8) as u8 == ((n / 256) % 256) as u8) by (bit_vector);
            assert(n as u8 == (n % 256) as u8) by (bit_vector);
            assert(r =~= gf16_nth(n));
        }
        r
    }

    /// `Some` of the `n`-th element when `n` is below the order, otherwise `None`.
    pub fn nth_checked(n: usize) -> (r: Option<[u8; 2]>)
        ensures
            n >= GF16_ORDER ==> r is None,
            n < GF16_ORDER ==> r == Some(gf16_nth(n)),
    {
        if n >= GF16_ORDER {
            None
        } else {
            Some(Self::nth_internal(n))
        }
    }

    /// The `n`-th element; an index past the order wraps around.
    pub fn nth(n: usize) -> (r: [u8; 2])
        ensures
            r == gf16_nth((n % GF16_ORDER) as usize),
    {
        match Self::nth_checked(n) {
            Some(e) => e,
            None => Self::nth_internal(n % GF16_ORDER),
        }
    }

    /// `out[i] = elem * input[i]` for every `i`.
    pub fn mul_slice(elem: [u8; 2], input: &[[u8; 2]], out: &mut [[u8; 2]])
        requires
            input@.len() == old(out)@.len(),
        ensures
            final(out)@.len() == old(out)@.len(),
            forall|i: int| 0 <= i < input@.len() ==> #[trigger] final(out)@[i] == gf16_mul(elem, input@[i]),
    {
        gf16_mul_slice(elem, input, out, false);
    }

    /// `out[i] = out[i] + elem * input[i]` for every `i`.
    pub fn mul_slice_add(elem: [u8; 2], input: &[[u8; 2]], out: &mut [[u8; 2]])
        requires
            input@.len() == old(out)@.len(),
        ensures
            final(out)@.len() == old(out)@.len(),
            forall|i: int|
                0 <= i < input@.len() ==> #[trigger] final(out)@[i] == gf16_add(
                    old(out)@[i],
                    gf16_mul(elem, input@[i]),
                ),
    {
        gf16_mul_slice(elem, input, out, true);
    }
}

proof fn lemma_xor4_cancel(x1: u8, x2: u8, x3: u8, x4: u8)
    requires
        x1 == x3,
        x2 == x4,
    ensures
        (x1 ^ (x2 ^ x3)) ^ x4 == 0u8,
{
    assert(x1 == x3 && x2 == x4 ==> (x1 ^ (x2 ^ x3)) ^ x4 == 0u8) by (bit_vector);
}

proof fn lemma_xor_not_root(t: u8, tm: u8, mm: u8)
    requires
        t == tm ^ mm,
        t != 128u8,
    ensures
        (mm ^ tm) ^ 128u8 != 0u8,
{
    assert(t == tm ^ mm && t != 128u8 ==> (mm ^ tm) ^ 128u8 != 0u8) by (bit_vector);
}

/// The conjugate of `h*X + l`: `h*X + (2*h + l)`, the image under the other
/// root of the extension polynomial.
pub open spec fn gf16_conj(a: [u8; 2]) -> [u8; 2] {
    [a[0], gf_mul(2, a[0]) ^ a[1]]
}

/// The norm of `h*X + l`: `l^2 + 2*h*l + 128*h^2`, the product of the element
/// and its conjugate.
pub open spec fn gf16_norm(a: [u8; 2]) -> u8 {
    gf_mul(a[1], a[1]) ^ gf_mul(2, gf_mul(a[0], a[1])) ^ gf_mul(128, gf_mul(a[0], a[0]))
}

/// An element times its conjugate is its norm.
pub proof fn lemma_gf16_mul_conj(a: [u8; 2])
    ensures
        gf16_mul(a, gf16_conj(a)) == gf16_constant(gf16_norm(a)),
{
    let (h, l) = (a[0], a[1]);
    let c = gf16_conj(a);
    let hh = gf_mul(h, h);
    let hl = gf_mul(h, l);
    lemma_mul_distributive(h, gf_mul(2, h), l);
    lemma_mul_distributive(l, gf_mul(2, h), l);
    lemma_mul_commutative(h, gf_mul(2, h));
    lemma_mul_associative(2, h, h);
    lemma_mul_commutative(l, h);
    lemma_mul_commutative(l, gf_mul(2, h));
    lemma_mul_associative(2, h, l);
    // X coefficient: l*h + (h*2h + h*l) + 2*hh
    let x1 = gf_mul(l, h);
    let x2 = gf_mul(h, gf_mul(2, h));
    let x3 = gf_mul(h, l);
    assert(x2 == gf_mul(2, hh));
    lemma_xor4_cancel(x1, x2, x3, gf_mul(2, hh));
    // constant coefficient: (l*2h + l*l) + 128*hh
    let y1 = gf_mul(l, gf_mul(2, h));
    let y2 = gf_mul(l, l);
    let y3 = gf_mul(128, hh);
    assert(y1 == gf_mul(2, hl));
    lemma_xor_swap(y1, y2, y3);
    assert(0u8 == 0u8);
    assert(gf16_mul(a, c) =~= gf16_constant(gf16_norm(a)));
}

/// A non-zero element has a non-zero norm: otherwise `l/h` would be a root
/// of the extension polynomial.
pub proof fn lemma_gf16_norm_nonzero(a: [u8; 2])
    requires
        a != gf16_zero(),
    ensures
        gf16_norm(a) != 0,
{
    let (h, l) = (a[0], a[1]);
    if h == 0 {
        lemma_mul_identity(l);
        lemma_mul_identity(2);
        lemma_mul_identity(128);
        lemma_mul_identity(0);
        lemma_xor_zero(gf_mul(l, l));
        lemma_xor_zero(0);
        if l == 0 {
            assert(a =~= gf16_zero());
        }
        lemma_no_zero_divisors(l, l);
    } else {
        let m = gf_div(l, h);
        galois_8::lemma_div_mul(l, h, m);
        // l == m * h
        let hh = gf_mul(h, h);
        let mm = gf_mul(m, m);
        // l*l == (m*m)*(h*h)
        lemma_mul_associative(m, h, gf_mul(m, h));
        lemma_mul_associative(h, m, h);
        lemma_mul_commutative(h, m);
        lemma_mul_associative(m, h, h);
        lemma_mul_associative(m, m, hh);
        assert(gf_mul(h, gf_mul(m, h)) == gf_mul(m, hh));
        assert(gf_mul(l, l) == gf_mul(mm, hh));
        // h*l == m*(h*h)
        lemma_mul_associative(h, m, h);
        lemma_mul_commutative(h, m);
        lemma_mul_associative(m, h, h);
        assert(gf_mul(h, l) == gf_mul(m, hh));
        // 2*(m*hh) == (2*m)*hh and 128*hh
        lemma_mul_associative(2, m, hh);
        lemma_mul_identity(hh);
        lemma_mul_commutative(128, hh);
        lemma_mul_distributive(hh, mm, gf_mul(2, m));
        lemma_mul_distributive(hh, mm ^ gf_mul(2, m), 128);
        lemma_mul_commutative(hh, mm);
        lemma_mul_commutative(hh, gf_mul(2, m));
        lemma_mul_commutative(hh, mm ^ gf_mul(2, m));
        lemma_mul_commutative(hh, (mm ^ gf_mul(2, m)) ^ 128);
        // norm == ((m*m + 2*m) + 128) * h*h
        assert(gf16_norm(a) == gf_mul((mm ^ gf_mul(2, m)) ^ 128, hh));
        lemma_no_zero_divisors(h, h);
        lemma_no_zero_divisors((mm ^ gf_mul(2, m)) ^ 128, hh);
        // (2 + m)*m == 2*m + m*m
        lemma_mul_distributive(m, 2, m);
        lemma_mul_commutative(m, 2 ^ m);
        lemma_mul_commutative(m, 2);
        lemma_quadratic_has_no_root(m);
        let t = gf_mul(2u8 ^ m, m);
        assert(t == gf_mul(2, m) ^ mm);
        lemma_xor_not_root(t, gf_mul(2, m), mm);
    }
}

/// GF(2^16) has no zero divisors.
pub proof fn lemma_gf16_no_zero_divisors(z: [u8; 2], a: [u8; 2])
    requires
        a != gf16_zero(),
        gf16_mul(z, a) == gf16_zero(),
    ensures
        z == gf16_zero(),
{
    let n = gf16_norm(a);
    lemma_gf16_mul_conj(a);
    lemma_gf16_norm_nonzero(a);
    lemma_gf16_mul_associative(z, a, gf16_conj(a));
    lemma_gf16_mul_zero(gf16_conj(a));
    lemma_scale_is_mul(z, n);
    assert([gf_mul(n, z[0]), gf_mul(n, z[1])] == gf16_zero());
    lemma_no_zero_divisors(n, z[0]);
    lemma_no_zero_divisors(n, z[1]);
    assert(z =~= gf16_zero());
}

/// Multiplication by a non-zero element can be cancelled.
pub proof fn lemma_gf16_mul_cancel(x: [u8; 2], y: [u8; 2], a: [u8; 2])
    requires
        a != gf16_zero(),
        gf16_mul(x, a) == gf16_mul(y, a),
    ensures
        x == y,
{
    lemma_gf16_mul_distributive(a, x, y);
    lemma_gf16_add_laws(gf16_mul(x, a), gf16_mul(x, a), gf16_mul(x, a));
    lemma_gf16_no_zero_divisors(gf16_add(x, y), a);
    assert(x[0] ^ y[0] == 0u8 && x[1] ^ y[1] == 0u8);
    lemma_xor_cancel(x[0], y[0]);
    lemma_xor_cancel(x[1], y[1]);
    assert(x =~= y);
}

/// Dividing `a^n` by a non-zero `a` gives `a^(n-1)`: the only `q` with
/// `q * a == a^n` is `a^(n-1)`.
pub proof fn lemma_gf16_pow_div(a: [u8; 2], n: nat, q: [u8; 2])
    requires
        a != gf16_zero(),
        n >= 1,
        gf16_mul(q, a) == gf16_pow(a, n),
    ensures
        q == gf16_pow(a, (n - 1) as nat),
{
    lemma_gf16_mul_cancel(q, gf16_pow(a, (n - 1) as nat), a);
}

/// The inverse of a non-zero element is the only element whose product with it is one.
pub proof fn lemma_gf16_inverse_unique(a: [u8; 2], b: [u8; 2], c: [u8; 2])
    requires
        a != gf16_zero(),
        gf16_mul(a, b) == gf16_one(),
        gf16_mul(a, c) == gf16_one(),
    ensures
        b == c,
{
    lemma_gf16_mul_commutative(a, b);
    lemma_gf16_mul_commutative(a, c);
    lemma_gf16_mul_cancel(b, c, a);
}

} // verus!
