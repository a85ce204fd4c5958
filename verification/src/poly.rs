//! Polynomial functions over GF(2^8): the functions that some coefficient
//! sequence evaluates to, closed under the operations that build products of
//! linear factors and their sums, and zero once they vanish at more points
//! than their degree. They show that Cauchy matrices are non-singular.
use vstd::prelude::*;

use crate::galois_8::{
    gf_div, gf_inv, gf_mul, gf_pow, lemma_add_group, lemma_mul_associative, lemma_mul_commutative,
    lemma_mul_distributive, lemma_mul_identity, lemma_mul_inverse, lemma_no_zero_divisors,
};
use crate::matrix::{
    eval_poly, lemma_distinct_sum_nonzero, lemma_eval_division, lemma_poly_roots, lemma_xor_cancel, lemma_xsum_add,
    lemma_xsum_ext, lemma_xsum_scale, lemma_xsum_single, lemma_xsum_zero, quot, xsum,
};

verus! {

/// `f` is the polynomial with the coefficients `p[0..n]`.
pub open spec fn poly_of(f: spec_fn(u8) -> u8, p: Seq<u8>, n: nat) -> bool {
    forall|t: u8| #[trigger] f(t) == eval_poly(p, n, t)
}

/// `f` is a polynomial with at most `n` coefficients.
pub open spec fn is_poly(f: spec_fn(u8) -> u8, n: nat) -> bool {
    exists|p: Seq<u8>| #[trigger] poly_of(f, p, n)
}

/// A function equal everywhere to a polynomial is one.
proof fn lemma_poly_ext(f: spec_fn(u8) -> u8, g: spec_fn(u8) -> u8, n: nat)
    requires
        is_poly(f, n),
        forall|t: u8| #[trigger] g(t) == f(t),
    ensures
        is_poly(g, n),
{
    let p = choose|p: Seq<u8>| #[trigger] poly_of(f, p, n);
    assert(poly_of(g, p, n));
}

/// The zero function is a polynomial with any number of coefficients.
proof fn lemma_poly_zero_fn(n: nat)
    ensures
        is_poly(|t: u8| 0u8, n),
{
    let p = Seq::new(n, |c: int| 0u8);
    let z = |t: u8| 0u8;
    assert forall|t: u8| #[trigger] z(t) == eval_poly(p, n, t) by {
        assert forall|c: int| 0 <= c < n implies #[trigger] gf_mul(p[c], gf_pow(t, c as nat)) == 0 by {
            lemma_mul_identity(gf_pow(t, c as nat));
        }
        lemma_xsum_zero(n, |c: int| gf_mul(p[c], gf_pow(t, c as nat)));
    }
    assert(poly_of(z, p, n));
}

/// A constant is a polynomial with one coefficient.
proof fn lemma_poly_const(v: u8)
    ensures
        is_poly(|t: u8| v, 1),
{
    let p = seq![v];
    let cst = |t: u8| v;
    assert forall|t: u8| #[trigger] cst(t) == eval_poly(p, 1, t) by {
        let f = |c: int| gf_mul(p[c], gf_pow(t, c as nat));
        assert(gf_pow(t, 0) == 1);
        assert(p[0] == v);
        lemma_mul_identity(v);
        assert(f(0) == v);
        assert(xsum(1, f) == xsum(0, f) ^ f(0));
        lemma_add_group(0u8, v);
        lemma_add_group(v, 0u8);
    }
    assert(poly_of(cst, p, 1));
}

/// The sum of two polynomials is one.
proof fn lemma_poly_add(f: spec_fn(u8) -> u8, g: spec_fn(u8) -> u8, n: nat)
    requires
        is_poly(f, n),
        is_poly(g, n),
    ensures
        is_poly(|t: u8| f(t) ^ g(t), n),
{
    let pf = choose|p: Seq<u8>| #[trigger] poly_of(f, p, n);
    let pg = choose|p: Seq<u8>| #[trigger] poly_of(g, p, n);
    let p = Seq::new(n, |c: int| pf[c] ^ pg[c]);
    let h = |t: u8| f(t) ^ g(t);
    assert forall|t: u8| #[trigger] h(t) == eval_poly(p, n, t) by {
        assert(f(t) == eval_poly(pf, n, t));
        assert(g(t) == eval_poly(pg, n, t));
        assert forall|c: int| 0 <= c < n implies #[trigger] gf_mul(p[c], gf_pow(t, c as nat))
            == gf_mul(pf[c], gf_pow(t, c as nat)) ^ gf_mul(pg[c], gf_pow(t, c as nat)) by {
            lemma_mul_distributive(gf_pow(t, c as nat), pf[c], pg[c]);
        }
        lemma_xsum_add(
            n,
            |c: int| gf_mul(pf[c], gf_pow(t, c as nat)),
            |c: int| gf_mul(pg[c], gf_pow(t, c as nat)),
            |c: int| gf_mul(p[c], gf_pow(t, c as nat)),
        );
    }
    assert(poly_of(h, p, n));
}

/// A multiple of a polynomial is one.
proof fn lemma_poly_scale(f: spec_fn(u8) -> u8, n: nat, s: u8)
    requires
        is_poly(f, n),
    ensures
        is_poly(|t: u8| gf_mul(s, f(t)), n),
{
    let pf = choose|p: Seq<u8>| #[trigger] poly_of(f, p, n);
    let p = Seq::new(n, |c: int| gf_mul(s, pf[c]));
    let h = |t: u8| gf_mul(s, f(t));
    assert forall|t: u8| #[trigger] h(t) == eval_poly(p, n, t) by {
        assert(f(t) == eval_poly(pf, n, t));
        assert forall|c: int| 0 <= c < n implies #[trigger] gf_mul(p[c], gf_pow(t, c as nat))
            == gf_mul(s, gf_mul(pf[c], gf_pow(t, c as nat))) by {
            lemma_mul_associative(s, pf[c], gf_pow(t, c as nat));
        }
        lemma_xsum_scale(n, s, |c: int| gf_mul(pf[c], gf_pow(t, c as nat)), |c: int| gf_mul(p[c], gf_pow(t, c as nat)));
    }
    assert(poly_of(h, p, n));
}

/// The coefficients of `(t + a) q(t)`, for `q` with `n` coefficients.
spec fn lin_mul(q: Seq<u8>, n: nat, a: u8) -> Seq<u8> {
    Seq::new(n + 1, |c: int| (if c >= 1 { q[c - 1] } else { 0u8 }) ^ gf_mul(a, if c < n { q[c] } else { 0u8 }))
}

/// Dividing `(t + a) q(t)` by `t + a` gives back `q`.
proof fn lemma_quot_lin_mul(q: Seq<u8>, n: nat, a: u8, i: int)
    requires
        0 <= i < n,
    ensures
        quot(lin_mul(q, n, a), n + 1, a, i) == q[i],
    decreases n - i,
{
    let p = lin_mul(q, n, a);
    assert(quot(p, n + 1, a, i) == p[i + 1] ^ gf_mul(a, quot(p, n + 1, a, i + 1)));
    if i + 1 < n {
        lemma_quot_lin_mul(q, n, a, i + 1);
        assert(p[i + 1] == q[i] ^ gf_mul(a, q[i + 1]));
        lemma_xor_cancel(q[i], gf_mul(a, q[i + 1]));
    } else {
        assert(quot(p, n + 1, a, i + 1) == 0);
        lemma_mul_identity(a);
        assert(p[i + 1] == q[i] ^ gf_mul(a, 0u8));
        lemma_add_group(q[i], 0u8);
        lemma_add_group(q[i] ^ 0u8, 0u8);
    }
}

/// `(t + a) f(t)` is a polynomial with one coefficient more than `f`.
proof fn lemma_poly_mul_linear(f: spec_fn(u8) -> u8, n: nat, a: u8)
    requires
        is_poly(f, n),
    ensures
        is_poly(|t: u8| gf_mul(t ^ a, f(t)), n + 1),
{
    let q = choose|p: Seq<u8>| #[trigger] poly_of(f, p, n);
    let p = lin_mul(q, n, a);
    let h = |t: u8| gf_mul(t ^ a, f(t));
    let qs = Seq::new(n, |i: int| quot(p, n + 1, a, i));
    assert forall|i: int| 0 <= i < n implies #[trigger] qs[i] == q[i] by {
        lemma_quot_lin_mul(q, n, a, i);
    }
    // the remainder of the division vanishes
    assert(p[0] ^ gf_mul(a, quot(p, n + 1, a, 0)) == 0) by {
        lemma_mul_identity(a);
        if n >= 1 {
            lemma_quot_lin_mul(q, n, a, 0);
        }
        lemma_add_group(0u8, gf_mul(a, if 0 < n { q[0] } else { 0u8 }));
        lemma_add_group(gf_mul(a, if 0 < n { q[0] } else { 0u8 }), 0u8);
    }
    assert forall|t: u8| #[trigger] h(t) == eval_poly(p, n + 1, t) by {
        assert(f(t) == eval_poly(q, n, t));
        lemma_eval_division(p, n + 1, a, t);
        lemma_xsum_ext(n, |c: int| gf_mul(qs[c], gf_pow(t, c as nat)), |c: int| gf_mul(q[c], gf_pow(t, c as nat)));
        lemma_add_group(gf_mul(t ^ a, eval_poly(qs, n, t)), 0u8);
    }
    assert(poly_of(h, p, n + 1));
}

/// A polynomial with `n` coefficients vanishing at `n` distinct points
/// vanishes everywhere.
proof fn lemma_poly_vanishes(f: spec_fn(u8) -> u8, n: nat, pts: Seq<u8>)
    requires
        is_poly(f, n),
        pts.len() == n,
        forall|i: int, j: int| 0 <= i < j < n ==> #[trigger] pts[i] != #[trigger] pts[j],
        forall|j: int| 0 <= j < n ==> #[trigger] f(pts[j]) == 0,
    ensures
        forall|t: u8| #[trigger] f(t) == 0,
{
    let p = choose|p: Seq<u8>| #[trigger] poly_of(f, p, n);
    assert forall|j: int| 0 <= j < n implies #[trigger] eval_poly(p, n, pts[j]) == 0 by {
        assert(f(pts[j]) == eval_poly(p, n, pts[j]));
    }
    lemma_poly_roots(p, n, pts);
    assert forall|t: u8| #[trigger] f(t) == 0 by {
        assert(f(t) == eval_poly(p, n, t));
        assert forall|c: int| 0 <= c < n implies #[trigger] gf_mul(p[c], gf_pow(t, c as nat)) == 0 by {
            lemma_mul_identity(gf_pow(t, c as nat));
        }
        lemma_xsum_zero(n, |c: int| gf_mul(p[c], gf_pow(t, c as nat)));
    }
}

/// The product of the factors `t + ys[m]` for `m < n`, but the one at `l`.
pub open spec fn prod_skip(ys: Seq<u8>, n: nat, l: int, t: u8) -> u8
    decreases n,
{
    if n == 0 {
        1u8
    } else if n - 1 == l {
        prod_skip(ys, (n - 1) as nat, l, t)
    } else {
        gf_mul(t ^ ys[n - 1], prod_skip(ys, (n - 1) as nat, l, t))
    }
}

/// A product of `d` linear factors is a polynomial with `d + 1` coefficients.
proof fn lemma_prod_skip_poly(ys: Seq<u8>, n: nat, l: int)
    ensures
        is_poly(|t: u8| prod_skip(ys, n, l, t), if 0 <= l < n { n } else { n + 1 }),
    decreases n,
{
    let f = |t: u8| prod_skip(ys, n, l, t);
    if n == 0 {
        lemma_poly_const(1u8);
        lemma_poly_ext(|t: u8| 1u8, f, 1);
    } else {
        let m = (n - 1) as nat;
        lemma_prod_skip_poly(ys, m, l);
        let g = |t: u8| prod_skip(ys, m, l, t);
        let dg: nat = if 0 <= l < m { m } else { m + 1 };
        if m == l {
            lemma_poly_ext(g, f, dg);
        } else {
            lemma_poly_mul_linear(g, dg, ys[m as int]);
            lemma_poly_ext(|t: u8| gf_mul(t ^ ys[m as int], g(t)), f, dg + 1);
        }
    }
}

/// The product of all the factors is the factor at `l` times the product of
/// the others.
proof fn lemma_prod_skip_full(ys: Seq<u8>, n: nat, l: int, t: u8)
    requires
        0 <= l < n,
    ensures
        prod_skip(ys, n, -1, t) == gf_mul(t ^ ys[l], prod_skip(ys, n, l, t)),
    decreases n,
{
    let m = (n - 1) as nat;
    if m as int == l {
        assert(prod_skip(ys, m, -1, t) == prod_skip(ys, m, l, t)) by {
            lemma_prod_skip_same(ys, m, -1, l, t);
        }
    } else {
        lemma_prod_skip_full(ys, m, l, t);
        let a = t ^ ys[m as int];
        let b = t ^ ys[l];
        let rest = prod_skip(ys, m, l, t);
        lemma_mul_associative(a, b, rest);
        lemma_mul_associative(b, a, rest);
        lemma_mul_commutative(a, b);
    }
}

/// Skipping an index at or past the end skips nothing.
proof fn lemma_prod_skip_same(ys: Seq<u8>, n: nat, l1: int, l2: int, t: u8)
    requires
        l1 < 0 || l1 >= n,
        l2 < 0 || l2 >= n,
    ensures
        prod_skip(ys, n, l1, t) == prod_skip(ys, n, l2, t),
    decreases n,
{
    if n > 0 {
        lemma_prod_skip_same(ys, (n - 1) as nat, l1, l2, t);
    }
}

/// A product with a factor that vanishes at `t` vanishes there.
proof fn lemma_prod_skip_zero(ys: Seq<u8>, n: nat, l: int, t: u8, m0: int)
    requires
        0 <= m0 < n,
        m0 != l,
        ys[m0] == t,
    ensures
        prod_skip(ys, n, l, t) == 0,
    decreases n,
{
    let m = (n - 1) as nat;
    if m0 == m as int {
        lemma_add_group(t, t);
        lemma_mul_identity(prod_skip(ys, m, l, t));
    } else {
        lemma_prod_skip_zero(ys, m, l, t, m0);
        if m as int != l {
            lemma_mul_identity(t ^ ys[m as int]);
        }
    }
}

/// A product of non-zero factors is not zero.
proof fn lemma_prod_skip_nonzero(ys: Seq<u8>, n: nat, l: int, t: u8)
    requires
        forall|m: int| 0 <= m < n && m != l ==> #[trigger] ys[m] != t,
    ensures
        prod_skip(ys, n, l, t) != 0,
    decreases n,
{
    if n > 0 {
        let m = (n - 1) as nat;
        lemma_prod_skip_nonzero(ys, m, l, t);
        if m as int != l {
            assert(ys[m as int] != t);
            lemma_distinct_sum_nonzero(t, ys[m as int]);
            lemma_no_zero_divisors(t ^ ys[m as int], prod_skip(ys, m, l, t));
        }
    }
}

/// The sum over `l < m` of `z[l]` times the product of all factors but the
/// one at `l`.
spec fn partial_sum(ys: Seq<u8>, z: Seq<u8>, j: nat, m: nat, t: u8) -> u8 {
    xsum(m, |l: int| gf_mul(z[l], prod_skip(ys, j, l, t)))
}

/// Those partial sums, up to `j` terms, are polynomials with `j` coefficients.
proof fn lemma_partial_sum_poly(ys: Seq<u8>, z: Seq<u8>, j: nat, m: nat)
    requires
        m <= j,
    ensures
        is_poly(|t: u8| partial_sum(ys, z, j, m, t), j),
    decreases m,
{
    let f = |t: u8| partial_sum(ys, z, j, m, t);
    if m == 0 {
        lemma_poly_zero_fn(j);
        lemma_poly_ext(|t: u8| 0u8, f, j);
    } else {
        let k = (m - 1) as nat;
        lemma_partial_sum_poly(ys, z, j, k);
        lemma_prod_skip_poly(ys, j, k as int);
        let g = |t: u8| prod_skip(ys, j, k as int, t);
        lemma_poly_scale(g, j, z[k as int]);
        let sg = |t: u8| gf_mul(z[k as int], g(t));
        let prev = |t: u8| partial_sum(ys, z, j, k, t);
        lemma_poly_add(prev, sg, j);
        lemma_poly_ext(|t: u8| prev(t) ^ sg(t), f, j);
    }
}

/// Row `x` of a Cauchy matrix times `z`: the sum over `l < j` of
/// `z[l] / (x + ys[l])`.
pub open spec fn cauchy_dot(x: u8, ys: Seq<u8>, z: Seq<u8>, j: nat) -> u8 {
    xsum(j, |l: int| gf_mul(gf_div(1, x ^ ys[l]), z[l]))
}

/// Cauchy matrices are non-singular: when the vector `z` is sent to zero by
/// the matrix with entries `1 / (xs[i] + ys[l])`, for distinct `xs`, distinct
/// `ys` and no `xs[i]` equal to a `ys[l]`, `z` is zero.
pub proof fn lemma_cauchy_kernel(xs: Seq<u8>, ys: Seq<u8>, z: Seq<u8>, j: nat)
    requires
        xs.len() == j,
        ys.len() == j,
        z.len() == j,
        forall|a: int, b: int| 0 <= a < b < j ==> #[trigger] xs[a] != #[trigger] xs[b],
        forall|a: int, b: int| 0 <= a < b < j ==> #[trigger] ys[a] != #[trigger] ys[b],
        forall|a: int, b: int| 0 <= a < j && 0 <= b < j ==> #[trigger] xs[a] != #[trigger] ys[b],
        forall|i: int| 0 <= i < j ==> #[trigger] cauchy_dot(xs[i], ys, z, j) == 0,
    ensures
        forall|l: int| 0 <= l < j ==> #[trigger] z[l] == 0,
{
    let nf = |t: u8| partial_sum(ys, z, j, j, t);
    lemma_partial_sum_poly(ys, z, j, j);
    // it vanishes at each xs[i]
    assert forall|i: int| 0 <= i < j implies #[trigger] nf(xs[i]) == 0 by {
        let x = xs[i];
        let full = prod_skip(ys, j, -1, x);
        let inv_term = |l: int| gf_mul(gf_div(1, x ^ ys[l]), z[l]);
        assert(cauchy_dot(xs[i], ys, z, j) == 0);
        assert(xsum(j, inv_term) == 0);
        let term = |l: int| gf_mul(z[l], prod_skip(ys, j, l, x));
        assert forall|l: int| 0 <= l < j implies #[trigger] term(l) == gf_mul(full, inv_term(l)) by {
            let d = x ^ ys[l];
            let ps = prod_skip(ys, j, l, x);
            assert(xs[i] != ys[l]);
            lemma_distinct_sum_nonzero(x, ys[l]);
            lemma_prod_skip_full(ys, j, l, x);
            lemma_mul_inverse(d);
            lemma_mul_identity(gf_inv(d));
            assert(gf_div(1, d) == gf_inv(d));
            // ps == full * inv(d)
            lemma_mul_associative(gf_inv(d), d, ps);
            lemma_mul_identity(ps);
            lemma_mul_commutative(gf_inv(d), full);
            // z * (full * inv) == full * (inv * z)
            lemma_mul_associative(full, gf_inv(d), z[l]);
            lemma_mul_commutative(z[l], ps);
        }
        lemma_xsum_scale(j, full, inv_term, term);
        lemma_mul_identity(full);
    }
    lemma_poly_vanishes(nf, j, xs);
    assert forall|l0: int| 0 <= l0 < j implies #[trigger] z[l0] == 0 by {
        let y = ys[l0];
        assert(nf(y) == 0);
        let term = |l: int| gf_mul(z[l], prod_skip(ys, j, l, y));
        assert forall|l: int| 0 <= l < j && l != l0 implies #[trigger] term(l) == 0 by {
            lemma_prod_skip_zero(ys, j, l, y, l0);
            lemma_mul_identity(z[l]);
        }
        lemma_xsum_single(j, term, l0);
        assert forall|m: int| 0 <= m < j && m != l0 implies #[trigger] ys[m] != y by {
            if m < l0 {
                assert(ys[m] != ys[l0]);
            } else {
                assert(ys[l0] != ys[m]);
            }
        }
        lemma_prod_skip_nonzero(ys, j, l0, y);
        lemma_no_zero_divisors(z[l0], prod_skip(ys, j, l0, y));
    }
}

} // verus!
