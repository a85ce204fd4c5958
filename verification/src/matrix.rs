//! Matrices over GF(2^8): the encoding matrix of a classic codec, the
//! sub-matrices that reconstruction inverts, and the sums and products they
//! are specified with.
use vstd::prelude::*;

use crate::galois_8::{
    gf_div, gf_pow, gf_mul, lemma_add_associative, lemma_add_group, lemma_div_mul, lemma_mul_associative,
    lemma_mul_commutative, lemma_mul_distributive, lemma_mul_identity, lemma_no_zero_divisors,
};

verus! {

/// The field sum `f(0) + f(1) + ... + f(n - 1)` (addition is XOR).
pub open spec fn xsum(n: nat, f: spec_fn(int) -> u8) -> u8
    decreases n,
{
    if n == 0 {
        0u8
    } else {
        xsum((n - 1) as nat, f) ^ f(n - 1)
    }
}

/// Entry `(i, j)` of the product of `a` and `b`, where `a` has `n` columns
/// and `b` has `n` rows.
pub open spec fn prod_entry(a: Seq<Seq<u8>>, b: Seq<Seq<u8>>, n: nat, i: int, j: int) -> u8 {
    xsum(n, |l: int| gf_mul(a[i][l], b[l][j]))
}

/// `m` has `rows` rows of `cols` entries each.
pub open spec fn is_matrix(m: Seq<Seq<u8>>, rows: int, cols: int) -> bool {
    &&& m.len() == rows
    &&& forall|i: int| 0 <= i < rows ==> #[trigger] m[i].len() == cols
}

/// The `n` by `n` identity entry.
pub open spec fn id_entry(i: int, j: int) -> u8 {
    if i == j {
        1u8
    } else {
        0u8
    }
}

/// The product of `a` and `b` (`a` has `n` columns, `b` has `cols` columns).
pub open spec fn mat_mul(a: Seq<Seq<u8>>, b: Seq<Seq<u8>>, n: nat, cols: nat) -> Seq<Seq<u8>> {
    Seq::new(a.len(), |i: int| Seq::new(cols, |j: int| prod_entry(a, b, n, i, j)))
}

/// `r` times the `n` by `n` matrix `a` is the identity.
pub open spec fn is_left_inverse(r: Seq<Seq<u8>>, a: Seq<Seq<u8>>, n: nat) -> bool {
    forall|i: int, j: int| 0 <= i < n && 0 <= j < n ==> #[trigger] prod_entry(r, a, n, i, j) == id_entry(i, j)
}

/// Sums of pointwise equal terms are equal.
pub proof fn lemma_xsum_ext(n: nat, f: spec_fn(int) -> u8, g: spec_fn(int) -> u8)
    requires
        forall|i: int| 0 <= i < n ==> #[trigger] f(i) == g(i),
    ensures
        xsum(n, f) == xsum(n, g),
    decreases n,
{
    if n > 0 {
        lemma_xsum_ext((n - 1) as nat, f, g);
    }
}

/// A sum of zeros is zero.
pub proof fn lemma_xsum_zero(n: nat, f: spec_fn(int) -> u8)
    requires
        forall|i: int| 0 <= i < n ==> #[trigger] f(i) == 0,
    ensures
        xsum(n, f) == 0,
    decreases n,
{
    if n > 0 {
        lemma_xsum_zero((n - 1) as nat, f);
        lemma_add_group(0u8, 0u8);
    }
}

/// The sum of termwise sums is the sum of the two sums.
pub proof fn lemma_xsum_add(n: nat, f: spec_fn(int) -> u8, g: spec_fn(int) -> u8, h: spec_fn(int) -> u8)
    requires
        forall|i: int| 0 <= i < n ==> #[trigger] h(i) == f(i) ^ g(i),
    ensures
        xsum(n, h) == xsum(n, f) ^ xsum(n, g),
    decreases n,
{
    if n == 0 {
        lemma_add_group(0u8, 0u8);
    } else {
        let m = (n - 1) as nat;
        lemma_xsum_add(m, f, g, h);
        let a = xsum(m, f);
        let b = xsum(m, g);
        let x = f(n - 1);
        let y = g(n - 1);
        lemma_xor_swap_middle(a, b, x, y);
    }
}

/// `(a + b) + (x + y) == (a + x) + (b + y)`.
pub proof fn lemma_xor_swap_middle(a: u8, b: u8, x: u8, y: u8)
    ensures
        (a ^ b) ^ (x ^ y) == (a ^ x) ^ (b ^ y),
{
    lemma_add_associative(a ^ b, x, y);
    lemma_add_associative(a, b, x);
    lemma_add_group(b, x);
    lemma_add_associative(a, x, b);
    lemma_add_associative(a ^ x, b, y);
}

/// Scaling every term scales the sum.
pub proof fn lemma_xsum_scale(n: nat, c: u8, f: spec_fn(int) -> u8, h: spec_fn(int) -> u8)
    requires
        forall|i: int| 0 <= i < n ==> #[trigger] h(i) == gf_mul(c, f(i)),
    ensures
        xsum(n, h) == gf_mul(c, xsum(n, f)),
    decreases n,
{
    if n == 0 {
        lemma_mul_identity(c);
    } else {
        let m = (n - 1) as nat;
        lemma_xsum_scale(m, c, f, h);
        lemma_mul_distributive(c, xsum(m, f), f(n - 1));
    }
}

/// A sum whose terms vanish away from `k` is its `k`-th term.
pub proof fn lemma_xsum_single(n: nat, f: spec_fn(int) -> u8, k: int)
    requires
        0 <= k < n,
        forall|i: int| 0 <= i < n && i != k ==> #[trigger] f(i) == 0,
    ensures
        xsum(n, f) == f(k),
    decreases n,
{
    let m = (n - 1) as nat;
    if k == n - 1 {
        lemma_xsum_zero(m, f);
        lemma_add_group(f(k), 0u8);
        lemma_add_group(0u8, f(k));
    } else {
        lemma_xsum_single(m, f, k);
        lemma_add_group(f(k), 0u8);
    }
}

/// Changing one term changes the sum by the difference of the two terms.
pub proof fn lemma_xsum_update(n: nat, f: spec_fn(int) -> u8, g: spec_fn(int) -> u8, k: int)
    requires
        0 <= k < n,
        forall|i: int| 0 <= i < n && i != k ==> #[trigger] f(i) == g(i),
    ensures
        xsum(n, g) == xsum(n, f) ^ (f(k) ^ g(k)),
{
    let d = |i: int| f(i) ^ g(i);
    assert forall|i: int| 0 <= i < n implies #[trigger] g(i) == f(i) ^ d(i) by {
        lemma_add_associative(f(i), f(i), g(i));
        lemma_add_group(f(i), f(i));
        lemma_add_group(g(i), 0u8);
        lemma_add_group(0u8, g(i));
    }
    assert forall|i: int| 0 <= i < n && i != k implies #[trigger] d(i) == 0 by {
        lemma_add_group(f(i), f(i));
    }
    lemma_xsum_add(n, f, d, g);
    lemma_xsum_single(n, d, k);
}

/// The order of summation of a double sum does not matter.
pub proof fn lemma_xsum_exchange(n: nat, m: nat, f: spec_fn(int, int) -> u8)
    ensures
        xsum(n, |i: int| xsum(m, |j: int| f(i, j))) == xsum(m, |j: int| xsum(n, |i: int| f(i, j))),
    decreases n,
{
    if n == 0 {
        lemma_xsum_zero(m, |j: int| xsum(0, |i: int| f(i, j)));
    } else {
        let k = (n - 1) as nat;
        lemma_xsum_exchange(k, m, f);
        let inner_k = |j: int| xsum(k, |i: int| f(i, j));
        let last = |j: int| f(k as int, j);
        let inner_n = |j: int| xsum(n, |i: int| f(i, j));
        assert forall|j: int| 0 <= j < m implies #[trigger] inner_n(j) == inner_k(j) ^ last(j) by {}
        lemma_xsum_add(m, inner_k, last, inner_n);
        let outer = |i: int| xsum(m, |j: int| f(i, j));
        assert(outer(k as int) == xsum(m, last)) by {
            lemma_xsum_ext(m, |j: int| f(k as int, j), last);
        }
    }
}

/// `(x + t) + t == x`, and `x + (x + t) == t`.
pub proof fn lemma_xor_cancel(x: u8, t: u8)
    ensures
        (x ^ t) ^ t == x,
        x ^ (x ^ t) == t,
{
    lemma_add_associative(x, t, t);
    lemma_add_group(t, t);
    lemma_add_group(x, 0u8);
    lemma_add_associative(x, x, t);
    lemma_add_group(x, x);
    lemma_add_group(t, 0u8);
    lemma_add_group(0u8, t);
}

/// The `n` by `n` identity.
pub open spec fn identity_spec(n: nat) -> Seq<Seq<u8>> {
    Seq::new(n, |i: int| Seq::new(n, |j: int| id_entry(i, j)))
}

/// `w` with rows `r1` and `r2` exchanged.
pub open spec fn swap_rows_spec(w: Seq<Seq<u8>>, r1: int, r2: int) -> Seq<Seq<u8>> {
    w.update(r1, w[r2]).update(r2, w[r1])
}

/// `p` with columns `r1` and `r2` exchanged.
pub open spec fn swap_cols_spec(p: Seq<Seq<u8>>, r1: int, r2: int) -> Seq<Seq<u8>> {
    Seq::new(p.len(), |a: int| p[a].update(r1, p[a][r2]).update(r2, p[a][r1]))
}

/// `w` with row `r` multiplied by `s`.
pub open spec fn scale_row_spec(w: Seq<Seq<u8>>, r: int, s: u8) -> Seq<Seq<u8>> {
    w.update(r, Seq::new(w[r].len(), |c: int| gf_mul(s, w[r][c])))
}

/// `p` with column `r` multiplied by `t`.
pub open spec fn scale_col_spec(p: Seq<Seq<u8>>, r: int, t: u8) -> Seq<Seq<u8>> {
    Seq::new(p.len(), |a: int| p[a].update(r, gf_mul(p[a][r], t)))
}

/// `w` with `s` times row `src` added to row `dst`.
pub open spec fn add_row_spec(w: Seq<Seq<u8>>, dst: int, src: int, s: u8) -> Seq<Seq<u8>> {
    w.update(dst, Seq::new(w[dst].len(), |c: int| w[dst][c] ^ gf_mul(s, w[src][c])))
}

/// `p` with `s` times column `dst` added to column `src`: the column operation
/// that undoes, on the left, the row operation `add_row_spec(_, dst, src, s)`.
pub open spec fn add_col_spec(p: Seq<Seq<u8>>, dst: int, src: int, s: u8) -> Seq<Seq<u8>> {
    Seq::new(p.len(), |a: int| p[a].update(src, p[a][src] ^ gf_mul(s, p[a][dst])))
}

/// In row `i` of the `n` by `2n` working matrix, entry `j` of the left half
/// is the right half times `a`.
pub open spec fn left_rel(w: Seq<Seq<u8>>, a: Seq<Seq<u8>>, n: nat, i: int, j: int) -> bool {
    w[i][j] == xsum(n, |l: int| gf_mul(w[i][n + l], a[l][j]))
}

/// The left half of `w` is its right half times `a`.
pub open spec fn inv_left(w: Seq<Seq<u8>>, a: Seq<Seq<u8>>, n: nat) -> bool {
    forall|i: int, j: int| 0 <= i < n && 0 <= j < n ==> #[trigger] left_rel(w, a, n, i, j)
}

/// Entry `(i, c)` of `p` times `w` is entry `(i, c)` of `w0`.
pub open spec fn p_rel(p: Seq<Seq<u8>>, w: Seq<Seq<u8>>, w0: Seq<Seq<u8>>, n: nat, i: int, c: int) -> bool {
    xsum(n, |l: int| gf_mul(p[i][l], w[l][c])) == w0[i][c]
}

/// `p` times the `n` by `2n` matrix `w` is `w0`.
pub open spec fn inv_p(p: Seq<Seq<u8>>, w: Seq<Seq<u8>>, w0: Seq<Seq<u8>>, n: nat) -> bool {
    forall|i: int, c: int| 0 <= i < n && 0 <= c < 2 * n ==> #[trigger] p_rel(p, w, w0, n, i, c)
}

/// Exchanging two rows of `w` and the same two columns of `p` keeps both
/// elimination invariants.
pub proof fn lemma_swap_keeps(w: Seq<Seq<u8>>, a: Seq<Seq<u8>>, p: Seq<Seq<u8>>, w0: Seq<Seq<u8>>, n: nat, r1: int, r2: int)
    requires
        is_matrix(w, n as int, 2 * n as int),
        is_matrix(p, n as int, n as int),
        0 <= r1 < n,
        0 <= r2 < n,
        inv_left(w, a, n),
        inv_p(p, w, w0, n),
    ensures
        inv_left(swap_rows_spec(w, r1, r2), a, n),
        inv_p(swap_cols_spec(p, r1, r2), swap_rows_spec(w, r1, r2), w0, n),
{
    let w2 = swap_rows_spec(w, r1, r2);
    let p2 = swap_cols_spec(p, r1, r2);
    assert forall|i: int, j: int| 0 <= i < n && 0 <= j < n implies #[trigger] left_rel(w2, a, n, i, j) by {
        let k = if i == r2 { r1 } else if i == r1 { r2 } else { i };
        assert(left_rel(w, a, n, k, j));
        assert(w2[i] == w[k]);
    }
    assert forall|i: int, c: int| 0 <= i < n && 0 <= c < 2 * n implies #[trigger] p_rel(p2, w2, w0, n, i, c) by {
        assert(p_rel(p, w, w0, n, i, c));
        let f = |l: int| gf_mul(p[i][l], w[l][c]);
        let g = |l: int| gf_mul(p2[i][l], w2[l][c]);
        if r1 == r2 {
            lemma_xsum_ext(n, f, g);
        } else {
            let h = |l: int| if l == r1 { f(r2) } else { f(l) };
            lemma_xsum_update(n, f, h, r1);
            lemma_xsum_update(n, h, g, r2);
            lemma_add_group(f(r1), f(r2));
            lemma_xor_cancel(xsum(n, f), f(r1) ^ f(r2));
        }
    }
}

/// Multiplying row `r` of `w` by the inverse of its pivot, and column `r` of
/// `p` by the pivot, keeps both elimination invariants.
pub proof fn lemma_scale_keeps(w: Seq<Seq<u8>>, a: Seq<Seq<u8>>, p: Seq<Seq<u8>>, w0: Seq<Seq<u8>>, n: nat, r: int, pivot: u8)
    requires
        is_matrix(w, n as int, 2 * n as int),
        is_matrix(p, n as int, n as int),
        0 <= r < n,
        pivot != 0,
        inv_left(w, a, n),
        inv_p(p, w, w0, n),
    ensures
        inv_left(scale_row_spec(w, r, gf_div(1, pivot)), a, n),
        inv_p(scale_col_spec(p, r, pivot), scale_row_spec(w, r, gf_div(1, pivot)), w0, n),
{
    let s = gf_div(1, pivot);
    let w2 = scale_row_spec(w, r, s);
    let p2 = scale_col_spec(p, r, pivot);
    lemma_div_mul(1, pivot, 0);
    assert forall|i: int, j: int| 0 <= i < n && 0 <= j < n implies #[trigger] left_rel(w2, a, n, i, j) by {
        assert(left_rel(w, a, n, i, j));
        if i == r {
            let f = |l: int| gf_mul(w[r][n + l], a[l][j]);
            let h = |l: int| gf_mul(w2[r][n + l], a[l][j]);
            assert forall|l: int| 0 <= l < n implies #[trigger] h(l) == gf_mul(s, f(l)) by {
                lemma_mul_associative(s, w[r][n + l], a[l][j]);
            }
            lemma_xsum_scale(n, s, f, h);
        } else {
            lemma_xsum_ext(n, |l: int| gf_mul(w[i][n + l], a[l][j]), |l: int| gf_mul(w2[i][n + l], a[l][j]));
        }
    }
    assert forall|i: int, c: int| 0 <= i < n && 0 <= c < 2 * n implies #[trigger] p_rel(p2, w2, w0, n, i, c) by {
        assert(p_rel(p, w, w0, n, i, c));
        let f = |l: int| gf_mul(p[i][l], w[l][c]);
        let g = |l: int| gf_mul(p2[i][l], w2[l][c]);
        assert forall|l: int| 0 <= l < n implies #[trigger] f(l) == g(l) by {
            if l == r {
                let x = p[i][r];
                let y = w[r][c];
                lemma_mul_associative(x, pivot, gf_mul(s, y));
                lemma_mul_associative(pivot, s, y);
                lemma_mul_commutative(pivot, s);
                lemma_mul_identity(y);
            }
        }
        lemma_xsum_ext(n, f, g);
    }
}

/// Adding `s` times row `src` of `w` to row `dst`, and `s` times column `dst`
/// of `p` to column `src`, keeps both elimination invariants.
pub proof fn lemma_add_keeps(w: Seq<Seq<u8>>, a: Seq<Seq<u8>>, p: Seq<Seq<u8>>, w0: Seq<Seq<u8>>, n: nat, dst: int, src: int, s: u8)
    requires
        is_matrix(w, n as int, 2 * n as int),
        is_matrix(p, n as int, n as int),
        0 <= dst < n,
        0 <= src < n,
        dst != src,
        inv_left(w, a, n),
        inv_p(p, w, w0, n),
    ensures
        inv_left(add_row_spec(w, dst, src, s), a, n),
        inv_p(add_col_spec(p, dst, src, s), add_row_spec(w, dst, src, s), w0, n),
{
    let w2 = add_row_spec(w, dst, src, s);
    let p2 = add_col_spec(p, dst, src, s);
    assert forall|i: int, j: int| 0 <= i < n && 0 <= j < n implies #[trigger] left_rel(w2, a, n, i, j) by {
        assert(left_rel(w, a, n, i, j));
        if i == dst {
            assert(left_rel(w, a, n, src, j));
            let fd = |l: int| gf_mul(w[dst][n + l], a[l][j]);
            let fs = |l: int| gf_mul(w[src][n + l], a[l][j]);
            let gs = |l: int| gf_mul(s, fs(l));
            let h = |l: int| gf_mul(w2[dst][n + l], a[l][j]);
            assert forall|l: int| 0 <= l < n implies #[trigger] gs(l) == gf_mul(s, fs(l)) by {}
            lemma_xsum_scale(n, s, fs, gs);
            assert forall|l: int| 0 <= l < n implies #[trigger] h(l) == fd(l) ^ gs(l) by {
                lemma_mul_distributive(a[l][j], w[dst][n + l], gf_mul(s, w[src][n + l]));
                lemma_mul_associative(s, w[src][n + l], a[l][j]);
            }
            lemma_xsum_add(n, fd, gs, h);
        } else {
            lemma_xsum_ext(n, |l: int| gf_mul(w[i][n + l], a[l][j]), |l: int| gf_mul(w2[i][n + l], a[l][j]));
        }
    }
    assert forall|i: int, c: int| 0 <= i < n && 0 <= c < 2 * n implies #[trigger] p_rel(p2, w2, w0, n, i, c) by {
        assert(p_rel(p, w, w0, n, i, c));
        let f = |l: int| gf_mul(p[i][l], w[l][c]);
        let g = |l: int| gf_mul(p2[i][l], w2[l][c]);
        let h = |l: int| if l == src { g(src) } else { f(l) };
        let t1 = gf_mul(gf_mul(s, p[i][dst]), w[src][c]);
        let t2 = gf_mul(p[i][dst], gf_mul(s, w[src][c]));
        lemma_mul_distributive(w[src][c], p[i][src], gf_mul(s, p[i][dst]));
        lemma_mul_distributive(p[i][dst], w[dst][c], gf_mul(s, w[src][c]));
        lemma_mul_associative(s, p[i][dst], w[src][c]);
        lemma_mul_associative(p[i][dst], s, w[src][c]);
        lemma_mul_commutative(s, p[i][dst]);
        assert(t1 == t2);
        assert(g(src) == f(src) ^ t1);
        assert(g(dst) == f(dst) ^ t2);
        lemma_xsum_update(n, f, h, src);
        lemma_xsum_update(n, h, g, dst);
        lemma_xor_cancel(f(src), t1);
        lemma_xor_cancel(f(dst), t2);
        lemma_xor_cancel(xsum(n, f), t1);
    }
}

/// The rows of `a` followed, each, by the same row of `b`.
pub open spec fn augment_spec(a: Seq<Seq<u8>>, b: Seq<Seq<u8>>) -> Seq<Seq<u8>> {
    Seq::new(a.len(), |i: int| a[i] + b[i])
}

/// The block of `m` with rows `rmin..rmax` and columns `cmin..cmax`.
pub open spec fn sub_matrix_spec(m: Seq<Seq<u8>>, rmin: int, cmin: int, rmax: int, cmax: int) -> Seq<Seq<u8>> {
    Seq::new((rmax - rmin) as nat, |i: int| Seq::new((cmax - cmin) as nat, |j: int| m[rmin + i][cmin + j]))
}

/// The first `n` entries of `row` times those of `x`, summed.
pub open spec fn dot(row: Seq<u8>, x: Seq<u8>, n: nat) -> u8 {
    xsum(n, |l: int| gf_mul(row[l], x[l]))
}

/// `x` is a non-zero vector of `n` entries that the first `n` rows of the
/// `n`-column matrix `a` send to zero.
pub open spec fn kernel_vector(a: Seq<Seq<u8>>, n: nat, x: Seq<u8>) -> bool {
    &&& x.len() == n
    &&& exists|i: int| 0 <= i < n && #[trigger] x[i] != 0
    &&& forall|i: int| 0 <= i < n ==> #[trigger] dot(a[i], x, n) == 0
}

/// The `n` by `n` matrix `a` is singular: it sends a non-zero vector to zero.
pub open spec fn singular(a: Seq<Seq<u8>>, n: nat) -> bool {
    exists|x: Seq<u8>| #[trigger] kernel_vector(a, n, x)
}

/// `r` and the `n` by `n` matrix `a` are inverse to each other.
pub open spec fn is_inverse(r: Seq<Seq<u8>>, a: Seq<Seq<u8>>, n: nat) -> bool {
    is_left_inverse(r, a, n) && is_left_inverse(a, r, n)
}

/// `[a | I]` satisfies both elimination invariants with `p` the identity.
proof fn lemma_elim_start(a: Seq<Seq<u8>>, n: nat)
    requires
        is_matrix(a, n as int, n as int),
    ensures
        inv_left(augment_spec(a, identity_spec(n)), a, n),
        inv_p(identity_spec(n), augment_spec(a, identity_spec(n)), augment_spec(a, identity_spec(n)), n),
{
    let id = identity_spec(n);
    let w0 = augment_spec(a, id);
    assert forall|i: int, j: int| 0 <= i < n && 0 <= j < n implies #[trigger] left_rel(w0, a, n, i, j) by {
        let f = |l: int| gf_mul(w0[i][n + l], a[l][j]);
        assert forall|l: int| 0 <= l < n && l != i implies #[trigger] f(l) == 0 by {
            lemma_mul_identity(a[l][j]);
        }
        lemma_xsum_single(n, f, i);
        lemma_mul_identity(a[i][j]);
    }
    assert forall|i: int, c: int| 0 <= i < n && 0 <= c < 2 * n implies #[trigger] p_rel(id, w0, w0, n, i, c) by {
        let f = |l: int| gf_mul(id[i][l], w0[l][c]);
        assert forall|l: int| 0 <= l < n && l != i implies #[trigger] f(l) == 0 by {
            lemma_mul_identity(w0[l][c]);
        }
        lemma_xsum_single(n, f, i);
        lemma_mul_identity(w0[i][c]);
    }
}

/// Once the left half of the working matrix is the identity, its right half
/// is the inverse of `a`.
proof fn lemma_elim_finish(w: Seq<Seq<u8>>, a: Seq<Seq<u8>>, p: Seq<Seq<u8>>, n: nat)
    requires
        is_matrix(w, n as int, 2 * n as int),
        is_matrix(a, n as int, n as int),
        is_matrix(p, n as int, n as int),
        inv_left(w, a, n),
        inv_p(p, w, augment_spec(a, identity_spec(n)), n),
        forall|i: int, j: int| 0 <= i < n && 0 <= j < n ==> #[trigger] w[i][j] == id_entry(i, j),
    ensures
        is_inverse(sub_matrix_spec(w, 0, n as int, n as int, 2 * n as int), a, n),
{
    let w0 = augment_spec(a, identity_spec(n));
    let r = sub_matrix_spec(w, 0, n as int, n as int, 2 * n as int);
    assert forall|i: int, c: int| 0 <= i < n && 0 <= c < n implies p[i][c] == a[i][c] by {
        assert(p_rel(p, w, w0, n, i, c));
        let f = |l: int| gf_mul(p[i][l], w[l][c]);
        assert forall|l: int| 0 <= l < n && l != c implies #[trigger] f(l) == 0 by {
            lemma_mul_identity(p[i][l]);
        }
        lemma_xsum_single(n, f, c);
        lemma_mul_identity(p[i][c]);
    }
    assert forall|i: int, j: int| 0 <= i < n && 0 <= j < n implies #[trigger] prod_entry(r, a, n, i, j) == id_entry(i, j) by {
        assert(left_rel(w, a, n, i, j));
        lemma_xsum_ext(n, |l: int| gf_mul(w[i][n + l], a[l][j]), |l: int| gf_mul(r[i][l], a[l][j]));
    }
    assert forall|i: int, j: int| 0 <= i < n && 0 <= j < n implies #[trigger] prod_entry(a, r, n, i, j) == id_entry(i, j) by {
        assert(p_rel(p, w, w0, n, i, n + j));
        lemma_xsum_ext(n, |l: int| gf_mul(p[i][l], w[l][n + j]), |l: int| gf_mul(a[i][l], r[l][j]));
    }
}

/// Back substitution through rows `k..r` of the left block of `w`, whose
/// diagonal is one there: the vector with a one at `r`, zeros after it, and
/// entries `k..r` chosen so that those rows times it vanish.
pub open spec fn back_sub(w: Seq<Seq<u8>>, n: nat, r: int, k: int) -> Seq<u8>
    decreases r - k,
{
    if k >= r {
        Seq::new(n, |l: int| id_entry(l, r))
    } else {
        let v = back_sub(w, n, r, k + 1);
        v.update(k, xsum(n, |l: int| if l > k { gf_mul(w[k][l], v[l]) } else { 0u8 }))
    }
}

/// What back substitution gives: a one at `r`, zeros after it, and each entry
/// `i` in `k..r` the sum of row `i` after the diagonal times the vector.
proof fn lemma_back_sub(w: Seq<Seq<u8>>, n: nat, r: int, k: int)
    requires
        0 <= k <= r < n,
    ensures
        back_sub(w, n, r, k).len() == n,
        back_sub(w, n, r, k)[r] == 1,
        forall|l: int| r < l < n ==> #[trigger] back_sub(w, n, r, k)[l] == 0,
        forall|i: int| k <= i < r ==> #[trigger] back_sub(w, n, r, k)[i]
            == xsum(n, |l: int| if l > i { gf_mul(w[i][l], back_sub(w, n, r, k)[l]) } else { 0u8 }),
    decreases r - k,
{
    if k < r {
        lemma_back_sub(w, n, r, k + 1);
        let v = back_sub(w, n, r, k + 1);
        let v2 = back_sub(w, n, r, k);
        assert forall|i: int| k <= i < r implies #[trigger] v2[i]
            == xsum(n, |l: int| if l > i { gf_mul(w[i][l], v2[l]) } else { 0u8 }) by {
            lemma_xsum_ext(
                n,
                |l: int| if l > i { gf_mul(w[i][l], v[l]) } else { 0u8 },
                |l: int| if l > i { gf_mul(w[i][l], v2[l]) } else { 0u8 },
            );
        }
    }
}

/// When elimination reaches a column `r` with no non-zero entry on or below
/// the diagonal, `a` is singular: back substitution gives a non-zero vector
/// that the left block, and so `a`, sends to zero.
proof fn lemma_no_pivot_singular(w: Seq<Seq<u8>>, a: Seq<Seq<u8>>, p: Seq<Seq<u8>>, n: nat, r: int)
    requires
        is_matrix(w, n as int, 2 * n as int),
        is_matrix(a, n as int, n as int),
        is_matrix(p, n as int, n as int),
        inv_left(w, a, n),
        inv_p(p, w, augment_spec(a, identity_spec(n)), n),
        0 <= r < n,
        forall|i: int| 0 <= i < r ==> #[trigger] w[i][i] == 1,
        forall|i: int, j: int| 0 <= j < r && j < i < n ==> #[trigger] w[i][j] == 0,
        forall|i: int| r <= i < n ==> #[trigger] w[i][r] == 0,
    ensures
        singular(a, n),
{
    let w0 = augment_spec(a, identity_spec(n));
    let x = back_sub(w, n, r, 0);
    lemma_back_sub(w, n, r, 0);
    let xm = Seq::new(n, |l: int| seq![x[l]]);
    let rm = sub_matrix_spec(w, 0, n as int, n as int, 2 * n as int);
    // the left block sends x to zero
    assert forall|i: int| 0 <= i < n implies #[trigger] dot(w[i], x, n) == 0 by {
        let f = |l: int| gf_mul(w[i][l], x[l]);
        if i >= r {
            assert forall|l: int| 0 <= l < n implies #[trigger] f(l) == 0 by {
                lemma_mul_identity(x[l]);
                lemma_mul_identity(w[i][l]);
                if l < r {
                    assert(w[i][l] == 0);
                }
            }
            lemma_xsum_zero(n, f);
        } else {
            let h = |l: int| if l > i { gf_mul(w[i][l], x[l]) } else { 0u8 };
            assert forall|l: int| 0 <= l < n && l != i implies #[trigger] h(l) == f(l) by {
                if l < i {
                    assert(w[i][l] == 0);
                    lemma_mul_identity(x[l]);
                }
            }
            lemma_xsum_update(n, h, f, i);
            lemma_mul_identity(x[i]);
            lemma_add_group(0u8, x[i]);
            lemma_add_group(x[i], x[i]);
            lemma_add_group(x[i], 0u8);
        }
    }
    // so does a, since the left block is the right block times a
    assert forall|i: int| 0 <= i < n implies #[trigger] prod_entry(rm, mat_mul(a, xm, n, 1), n, i, 0) == 0 by {
        lemma_assoc_entry(rm, a, xm, n, i, 0);
        lemma_xsum_ext(
            n,
            |l: int| gf_mul(rm[i][l], prod_entry(a, xm, n, l, 0)),
            |l: int| gf_mul(rm[i][l], mat_mul(a, xm, n, 1)[l][0]),
        );
        assert forall|t: int| 0 <= t < n implies #[trigger] prod_entry(rm, a, n, i, t) == w[i][t] by {
            assert(left_rel(w, a, n, i, t));
            lemma_xsum_ext(n, |l: int| gf_mul(rm[i][l], a[l][t]), |l: int| gf_mul(w[i][n + l], a[l][t]));
        }
        lemma_xsum_ext(n, |t: int| gf_mul(prod_entry(rm, a, n, i, t), xm[t][0]), |l: int| gf_mul(w[i][l], x[l]));
        assert(dot(w[i], x, n) == 0);
    }
    // the right block has the left inverse p, so a times x is zero
    assert forall|i: int| 0 <= i < n implies #[trigger] prod_entry(a, xm, n, i, 0) == 0 by {
        let zm = mat_mul(a, xm, n, 1);
        lemma_assoc_entry(p, rm, zm, n, i, 0);
        assert forall|l: int| 0 <= l < n implies #[trigger] gf_mul(p[i][l], prod_entry(rm, zm, n, l, 0)) == 0 by {
            lemma_mul_identity(p[i][l]);
        }
        lemma_xsum_zero(n, |l: int| gf_mul(p[i][l], prod_entry(rm, zm, n, l, 0)));
        assert forall|t: int| 0 <= t < n implies #[trigger] prod_entry(p, rm, n, i, t) == id_entry(i, t) by {
            assert(p_rel(p, w, w0, n, i, n + t));
            lemma_xsum_ext(n, |l: int| gf_mul(p[i][l], rm[l][t]), |l: int| gf_mul(p[i][l], w[l][n + t]));
        }
        lemma_xsum_ext(
            n,
            |t: int| gf_mul(prod_entry(p, rm, n, i, t), zm[t][0]),
            |t: int| gf_mul(id_entry(i, t), (|l: int| zm[l][0])(t)),
        );
        lemma_times_identity(n, |l: int| zm[l][0], i);
    }
    assert forall|i: int| 0 <= i < n implies #[trigger] dot(a[i], x, n) == 0 by {
        assert(prod_entry(a, xm, n, i, 0) == 0);
        lemma_xsum_ext(n, |l: int| gf_mul(a[i][l], xm[l][0]), |l: int| gf_mul(a[i][l], x[l]));
    }
    assert(x[r] != 0);
    assert(kernel_vector(a, n, x));
}

/// A dense matrix of field elements, stored row by row.
#[derive(Debug, Clone, PartialEq, Eq)]
pub struct Matrix {
    row_count: usize,
    col_count: usize,
    data: Vec<Vec<u8>>,
}

/// Why a matrix has no inverse.
#[derive(Debug, Clone, Copy, PartialEq, Eq)]
pub enum MatrixError {
    SingularMatrix,
    DimensionMismatch,
}

impl View for Matrix {
    type V = Seq<Seq<u8>>;

    closed spec fn view(&self) -> Seq<Seq<u8>> {
        Seq::new(self.data@.len(), |i: int| self.data@[i]@)
    }
}

/// A row of `n` zeros.
fn zero_row(n: usize) -> (r: Vec<u8>)
    ensures
        r@ == Seq::new(n as nat, |j: int| 0u8),
{
    let mut v: Vec<u8> = Vec::with_capacity(n);
    let mut j: usize = 0;
    while j < n
        invariant
            j <= n,
            v@ == Seq::new(j as nat, |k: int| 0u8),
        decreases n - j,
    {
        v.push(0u8);
        j = j + 1;
    }
    v
}

impl Matrix {
    /// The number of rows.
    pub closed spec fn rows(&self) -> nat {
        self.row_count as nat
    }

    /// The number of columns.
    pub closed spec fn cols(&self) -> nat {
        self.col_count as nat
    }

    /// The rows hold the stated number of entries each.
    pub closed spec fn wf(&self) -> bool {
        &&& self.data@.len() == self.row_count
        &&& forall|i: int| 0 <= i < self.row_count ==> #[trigger] self.data@[i]@.len() == self.col_count
    }

    pub proof fn lemma_view(&self)
        requires
            self.wf(),
        ensures
            is_matrix(self@, self.rows() as int, self.cols() as int),
    {
        assert forall|i: int| 0 <= i < self.rows() implies #[trigger] self@[i].len() == self.cols() by {
            assert(self.data@[i]@.len() == self.col_count);
        }
    }

    /// A `rows` by `cols` matrix of zeros.
    pub fn new(rows: usize, cols: usize) -> (m: Matrix)
        ensures
            m.wf(),
            m.rows() == rows,
            m.cols() == cols,
            m@ == Seq::new(rows as nat, |i: int| Seq::new(cols as nat, |j: int| 0u8)),
    {
        let mut data: Vec<Vec<u8>> = Vec::with_capacity(rows);
        let mut i: usize = 0;
        while i < rows
            invariant
                i <= rows,
                data@.len() == i,
                forall|k: int| 0 <= k < i ==> #[trigger] data@[k]@ == Seq::new(cols as nat, |j: int| 0u8),
            decreases rows - i,
        {
            data.push(zero_row(cols));
            i = i + 1;
        }
        let m = Matrix { row_count: rows, col_count: cols, data };
        assert(m@ =~= Seq::new(rows as nat, |i: int| Seq::new(cols as nat, |j: int| 0u8)));
        m
    }

    /// The `size` by `size` identity.
    pub fn identity(size: usize) -> (m: Matrix)
        ensures
            m.wf(),
            m.rows() == size,
            m.cols() == size,
            m@ == identity_spec(size as nat),
    {
        let mut m = Matrix::new(size, size);
        let mut i: usize = 0;
        while i < size
            invariant
                m.wf(),
                m.rows() == size,
                m.cols() == size,
                i <= size,
                forall|r: int, c: int| 0 <= r < size && 0 <= c < size ==> #[trigger] m@[r][c] == if r == c && r < i { 1u8 } else { 0u8 },
                forall|r: int| 0 <= r < size ==> #[trigger] m@[r].len() == size,
            decreases size - i,
        {
            m.set(i, i, 1);
            i = i + 1;
        }
        assert(m@ =~= identity_spec(size as nat)) by {
            assert forall|r: int| 0 <= r < size implies #[trigger] m@[r] =~= identity_spec(size as nat)[r] by {
                assert forall|c: int| 0 <= c < size implies m@[r][c] == identity_spec(size as nat)[r][c] by {}
            }
        }
        m
    }

    /// Entry `(r, c)`.
    pub fn get(&self, r: usize, c: usize) -> (v: u8)
        requires
            self.wf(),
            r < self.rows(),
            c < self.cols(),
        ensures
            v == self@[r as int][c as int],
    {
        self.data[r][c]
    }

    /// Set entry `(r, c)` to `v`.
    pub fn set(&mut self, r: usize, c: usize, v: u8)
        requires
            old(self).wf(),
            r < old(self).rows(),
            c < old(self).cols(),
        ensures
            final(self).wf(),
            final(self).rows() == old(self).rows(),
            final(self).cols() == old(self).cols(),
            final(self)@ == old(self)@.update(r as int, old(self)@[r as int].update(c as int, v)),
    {
        let mut row: Vec<u8> = Vec::new();
        std::mem::swap(&mut row, &mut self.data[r]);
        row.set(c, v);
        std::mem::swap(&mut row, &mut self.data[r]);
        assert(self@ =~= old(self)@.update(r as int, old(self)@[r as int].update(c as int, v)));
    }

    /// Row `r`.
    pub fn get_row(&self, r: usize) -> (row: &[u8])
        requires
            self.wf(),
            r < self.rows(),
        ensures
            row@ == self@[r as int],
    {
        self.data[r].as_slice()
    }

    /// Exchange rows `r1` and `r2`.
    pub fn swap_rows(&mut self, r1: usize, r2: usize)
        requires
            old(self).wf(),
            r1 < old(self).rows(),
            r2 < old(self).rows(),
        ensures
            final(self).wf(),
            final(self).rows() == old(self).rows(),
            final(self).cols() == old(self).cols(),
            final(self)@ == swap_rows_spec(old(self)@, r1 as int, r2 as int),
    {
        if r1 != r2 {
            let mut tmp: Vec<u8> = Vec::new();
            std::mem::swap(&mut tmp, &mut self.data[r1]);
            std::mem::swap(&mut tmp, &mut self.data[r2]);
            std::mem::swap(&mut tmp, &mut self.data[r1]);
        }
        assert(self@ =~= swap_rows_spec(old(self)@, r1 as int, r2 as int));
    }

    /// Multiply row `r` by `s`.
    pub fn scale_row(&mut self, r: usize, s: u8)
        requires
            old(self).wf(),
            r < old(self).rows(),
        ensures
            final(self).wf(),
            final(self).rows() == old(self).rows(),
            final(self).cols() == old(self).cols(),
            final(self)@ == scale_row_spec(old(self)@, r as int, s),
    {
        let mut row: Vec<u8> = Vec::new();
        std::mem::swap(&mut row, &mut self.data[r]);
        let n = row.len();
        let ghost orig = row@;
        let mut c: usize = 0;
        while c < n
            invariant
                n == orig.len(),
                row@.len() == n,
                c <= n,
                forall|k: int| 0 <= k < c ==> #[trigger] row@[k] == gf_mul(s, orig[k]),
                forall|k: int| c <= k < n ==> #[trigger] row@[k] == orig[k],
            decreases n - c,
        {
            let v = crate::galois_8::mul(s, row[c]);
            row.set(c, v);
            c = c + 1;
        }
        std::mem::swap(&mut row, &mut self.data[r]);
        assert(self@ =~= scale_row_spec(old(self)@, r as int, s)) by {
            assert(self@[r as int] =~= scale_row_spec(old(self)@, r as int, s)[r as int]);
        }
    }

    /// Add `s` times row `src` to row `dst`.
    fn add_scaled_row(&mut self, dst: usize, src: usize, s: u8)
        requires
            old(self).wf(),
            dst < old(self).rows(),
            src < old(self).rows(),
            dst != src,
        ensures
            final(self).wf(),
            final(self).rows() == old(self).rows(),
            final(self).cols() == old(self).cols(),
            final(self)@ == add_row_spec(old(self)@, dst as int, src as int, s),
    {
        let mut row: Vec<u8> = Vec::new();
        std::mem::swap(&mut row, &mut self.data[dst]);
        let n = row.len();
        let ghost orig = row@;
        let ghost from = self.data@[src as int]@;
        let mut c: usize = 0;
        while c < n
            invariant
                n == orig.len(),
                n == from.len(),
                self.data@.len() == old(self).data@.len(),
                src < self.data@.len(),
                self.data@[src as int]@ == from,
                row@.len() == n,
                c <= n,
                forall|k: int| 0 <= k < c ==> #[trigger] row@[k] == orig[k] ^ gf_mul(s, from[k]),
                forall|k: int| c <= k < n ==> #[trigger] row@[k] == orig[k],
            decreases n - c,
        {
            let v = row[c] ^ crate::galois_8::mul(s, self.data[src][c]);
            row.set(c, v);
            c = c + 1;
        }
        std::mem::swap(&mut row, &mut self.data[dst]);
        assert(self@ =~= add_row_spec(old(self)@, dst as int, src as int, s)) by {
            assert(self@[dst as int] =~= add_row_spec(old(self)@, dst as int, src as int, s)[dst as int]);
        }
    }
}

impl Matrix {
    /// The columns of `rhs` appended to the columns of `self`.
    pub fn augment(&self, rhs: &Matrix) -> (m: Matrix)
        requires
            self.wf(),
            rhs.wf(),
            self.rows() == rhs.rows(),
            self.cols() + rhs.cols() <= usize::MAX,
        ensures
            m.wf(),
            m.rows() == self.rows(),
            m.cols() == self.cols() + rhs.cols(),
            m@ == augment_spec(self@, rhs@),
    {
        let mut data: Vec<Vec<u8>> = Vec::with_capacity(self.row_count);
        let mut i: usize = 0;
        while i < self.row_count
            invariant
                self.wf(),
                rhs.wf(),
                self.rows() == rhs.rows(),
                self.cols() + rhs.cols() <= usize::MAX,
                i <= self.row_count,
                data@.len() == i,
                forall|k: int| 0 <= k < i ==> #[trigger] data@[k]@ == self@[k] + rhs@[k],
            decreases self.row_count - i,
        {
            let mut row: Vec<u8> = Vec::with_capacity(self.col_count + rhs.col_count);
            let mut c: usize = 0;
            while c < self.col_count
                invariant
                    self.wf(),
                    i < self.row_count,
                    c <= self.col_count,
                    row@ == self@[i as int].subrange(0, c as int),
                decreases self.col_count - c,
            {
                row.push(self.data[i][c]);
                c = c + 1;
                assert(row@ =~= self@[i as int].subrange(0, c as int));
            }
            let mut c: usize = 0;
            while c < rhs.col_count
                invariant
                    self.wf(),
                    rhs.wf(),
                    i < self.row_count,
                    i < rhs.row_count,
                    c <= rhs.col_count,
                    row@ == self@[i as int] + rhs@[i as int].subrange(0, c as int),
                decreases rhs.col_count - c,
            {
                row.push(rhs.data[i][c]);
                c = c + 1;
                assert(row@ =~= self@[i as int] + rhs@[i as int].subrange(0, c as int));
            }
            assert(rhs@[i as int].subrange(0, rhs.col_count as int) =~= rhs@[i as int]);
            data.push(row);
            i = i + 1;
        }
        let m = Matrix { row_count: self.row_count, col_count: self.col_count + rhs.col_count, data };
        assert(m@ =~= augment_spec(self@, rhs@));
        m
    }

    /// The block with rows `rmin..rmax` and columns `cmin..cmax`.
    pub fn sub_matrix(&self, rmin: usize, cmin: usize, rmax: usize, cmax: usize) -> (m: Matrix)
        requires
            self.wf(),
            rmin <= rmax <= self.rows(),
            cmin <= cmax <= self.cols(),
        ensures
            m.wf(),
            m.rows() == rmax - rmin,
            m.cols() == cmax - cmin,
            m@ == sub_matrix_spec(self@, rmin as int, cmin as int, rmax as int, cmax as int),
    {
        let mut data: Vec<Vec<u8>> = Vec::with_capacity(rmax - rmin);
        let mut r: usize = rmin;
        while r < rmax
            invariant
                self.wf(),
                rmin <= r <= rmax <= self.rows(),
                cmin <= cmax <= self.cols(),
                data@.len() == r - rmin,
                forall|k: int| 0 <= k < r - rmin ==> #[trigger] data@[k]@ == self@[rmin + k].subrange(cmin as int, cmax as int),
            decreases rmax - r,
        {
            let mut row: Vec<u8> = Vec::with_capacity(cmax - cmin);
            let mut c: usize = cmin;
            while c < cmax
                invariant
                    self.wf(),
                    r < self.rows(),
                    cmin <= c <= cmax <= self.cols(),
                    row@ == self@[r as int].subrange(cmin as int, c as int),
                decreases cmax - c,
            {
                row.push(self.data[r][c]);
                c = c + 1;
                assert(row@ =~= self@[r as int].subrange(cmin as int, c as int));
            }
            data.push(row);
            r = r + 1;
        }
        let m = Matrix { row_count: rmax - rmin, col_count: cmax - cmin, data };
        assert(m@ =~= sub_matrix_spec(self@, rmin as int, cmin as int, rmax as int, cmax as int)) by {
            assert forall|i: int| 0 <= i < rmax - rmin implies #[trigger] m@[i] =~= sub_matrix_spec(self@, rmin as int, cmin as int, rmax as int, cmax as int)[i] by {}
        }
        m
    }
}

impl Matrix {
    /// Gauss-Jordan elimination on `[a | I]`: on success the left half is the
    /// identity and the right half is the inverse of `a`; a column without a
    /// non-zero pivot makes the matrix singular.
    fn gaussian_elim(&mut self, Ghost(a): Ghost<Seq<Seq<u8>>>) -> (r: Result<(), MatrixError>)
        requires
            old(self).wf(),
            old(self).cols() == 2 * old(self).rows(),
            is_matrix(a, old(self).rows() as int, old(self).rows() as int),
            old(self)@ == augment_spec(a, identity_spec(old(self).rows())),
        ensures
            final(self).wf(),
            final(self).rows() == old(self).rows(),
            final(self).cols() == old(self).cols(),
            r is Ok ==> is_inverse(
                sub_matrix_spec(final(self)@, 0, old(self).rows() as int, old(self).rows() as int, old(self).cols() as int),
                a,
                old(self).rows(),
            ),
            r is Err ==> r == Err::<(), MatrixError>(MatrixError::SingularMatrix) && singular(a, old(self).rows()),
    {
        let n = self.row_count;
        let ghost nn = n as nat;
        let ghost w0 = self@;
        let ghost mut p: Seq<Seq<u8>> = identity_spec(nn);
        proof {
            lemma_elim_start(a, nn);
            self.lemma_view();
            assert(is_matrix(p, n as int, n as int));
        }
        let mut r: usize = 0;
        while r < n
            invariant
                self.wf(),
                self.rows() == n,
                self.cols() == 2 * n,
                nn == n,
                n == old(self).rows(),
                old(self).cols() == 2 * n,
                is_matrix(self@, n as int, 2 * n as int),
                is_matrix(a, n as int, n as int),
                is_matrix(p, n as int, n as int),
                w0 == augment_spec(a, identity_spec(nn)),
                inv_left(self@, a, nn),
                inv_p(p, self@, w0, nn),
                r <= n,
                forall|i: int| 0 <= i < r ==> #[trigger] self@[i][i] == 1,
                forall|i: int, j: int| 0 <= j < r && j < i < n ==> #[trigger] self@[i][j] == 0,
            decreases n - r,
        {
            if self.get(r, r) == 0 {
                let mut rb: usize = r + 1;
                while rb < n
                    invariant
                        self.wf(),
                        self.rows() == n,
                        self.cols() == 2 * n,
                        n == old(self).rows(),
                        old(self).cols() == 2 * n,
                        r < n,
                        r < rb <= n,
                        forall|i: int| r < i < rb ==> #[trigger] self@[i][r as int] == 0,
                    ensures
                        r < rb <= n,
                        rb < n ==> self@[rb as int][r as int] != 0,
                        forall|i: int| r < i < rb ==> #[trigger] self@[i][r as int] == 0,
                    decreases n - rb,
                {
                    if self.get(rb, r) != 0 {
                        break;
                    }
                    rb = rb + 1;
                }
                if rb < n {
                    let ghost before = self@;
                    self.swap_rows(r, rb);
                    proof {
                        lemma_swap_keeps(before, a, p, w0, nn, r as int, rb as int);
                        p = swap_cols_spec(p, r as int, rb as int);
                        self.lemma_view();
                        assert(is_matrix(p, n as int, n as int));
                        assert forall|i: int, j: int| 0 <= j < r && j < i < n implies #[trigger] self@[i][j] == 0 by {
                            let k = if i == rb { r as int } else if i == r { rb as int } else { i };
                            assert(before[k][j] == 0);
                        }
                        assert forall|i: int| 0 <= i < r implies #[trigger] self@[i][i] == 1 by {
                            assert(before[i][i] == 1);
                        }
                        assert(self@[r as int][r as int] != 0);
                    }
                } else {
                    assert(forall|i: int| r <= i < n ==> #[trigger] self@[i][r as int] == 0);
                }
            }
            let pivot = self.get(r, r);
            if pivot == 0 {
                proof {
                    lemma_no_pivot_singular(self@, a, p, nn, r as int);
                }
                return Err(MatrixError::SingularMatrix);
            }
            if pivot != 1 {
                let scale = crate::galois_8::div(1, pivot);
                let ghost before = self@;
                self.scale_row(r, scale);
                proof {
                    lemma_scale_keeps(before, a, p, w0, nn, r as int, pivot);
                    p = scale_col_spec(p, r as int, pivot);
                    self.lemma_view();
                    assert(is_matrix(p, n as int, n as int));
                    lemma_mul_commutative(scale, pivot);
                    lemma_mul_identity(scale);
                    assert forall|i: int, j: int| 0 <= j < r && j < i < n implies #[trigger] self@[i][j] == 0 by {
                        assert(before[i][j] == 0);
                    }
                    assert forall|i: int| 0 <= i < r implies #[trigger] self@[i][i] == 1 by {
                        assert(before[i][i] == 1);
                    }
                }
            }
            assert(self@[r as int][r as int] == 1);
            let mut rb: usize = r + 1;
            while rb < n
                invariant
                    self.wf(),
                    self.rows() == n,
                    self.cols() == 2 * n,
                    nn == n,
                    n == old(self).rows(),
                old(self).cols() == 2 * n,
                n == old(self).rows(),
                old(self).cols() == 2 * n,
                    is_matrix(self@, n as int, 2 * n as int),
                    is_matrix(a, n as int, n as int),
                    is_matrix(p, n as int, n as int),
                    w0 == augment_spec(a, identity_spec(nn)),
                    inv_left(self@, a, nn),
                    inv_p(p, self@, w0, nn),
                    r < n,
                    r < rb <= n,
                    self@[r as int][r as int] == 1,
                    forall|i: int| 0 <= i < r ==> #[trigger] self@[i][i] == 1,
                    forall|i: int, j: int| 0 <= j < r && j < i < n ==> #[trigger] self@[i][j] == 0,
                    forall|i: int| r < i < rb ==> #[trigger] self@[i][r as int] == 0,
                decreases n - rb,
            {
                let v = self.get(rb, r);
                if v != 0 {
                    let ghost before = self@;
                    self.add_scaled_row(rb, r, v);
                    proof {
                        lemma_add_keeps(before, a, p, w0, nn, rb as int, r as int, v);
                        p = add_col_spec(p, rb as int, r as int, v);
                        self.lemma_view();
                        assert(is_matrix(p, n as int, n as int));
                        lemma_mul_identity(v);
                        lemma_add_group(v, v);
                        lemma_add_group(0u8, 0u8);
                        assert forall|i: int, j: int| 0 <= j < r && j < i < n implies #[trigger] self@[i][j] == 0 by {
                            assert(before[i][j] == 0);
                            assert(before[r as int][j] == 0);
                        }
                        assert forall|i: int| 0 <= i < r implies #[trigger] self@[i][i] == 1 by {
                            assert(before[i][i] == 1);
                        }
                        assert forall|i: int| r < i < rb + 1 implies #[trigger] self@[i][r as int] == 0 by {
                            assert(i < rb ==> before[i][r as int] == 0);
                        }
                    }
                }
                rb = rb + 1;
            }
            r = r + 1;
        }
        let mut d: usize = 0;
        while d < n
            invariant
                self.wf(),
                self.rows() == n,
                self.cols() == 2 * n,
                nn == n,
                n == old(self).rows(),
                old(self).cols() == 2 * n,
                is_matrix(self@, n as int, 2 * n as int),
                is_matrix(a, n as int, n as int),
                is_matrix(p, n as int, n as int),
                w0 == augment_spec(a, identity_spec(nn)),
                inv_left(self@, a, nn),
                inv_p(p, self@, w0, nn),
                d <= n,
                forall|i: int| 0 <= i < n ==> #[trigger] self@[i][i] == 1,
                forall|i: int, j: int| 0 <= j < i < n ==> #[trigger] self@[i][j] == 0,
                forall|i: int, j: int| 0 <= j < d && 0 <= i < n && i != j ==> #[trigger] self@[i][j] == 0,
            decreases n - d,
        {
            let mut ra: usize = 0;
            while ra < d
                invariant
                    self.wf(),
                    self.rows() == n,
                    self.cols() == 2 * n,
                    nn == n,
                    n == old(self).rows(),
                old(self).cols() == 2 * n,
                n == old(self).rows(),
                old(self).cols() == 2 * n,
                    is_matrix(self@, n as int, 2 * n as int),
                    is_matrix(a, n as int, n as int),
                    is_matrix(p, n as int, n as int),
                    w0 == augment_spec(a, identity_spec(nn)),
                    inv_left(self@, a, nn),
                    inv_p(p, self@, w0, nn),
                    d < n,
                    ra <= d,
                    forall|i: int| 0 <= i < n ==> #[trigger] self@[i][i] == 1,
                    forall|i: int, j: int| 0 <= j < i < n ==> #[trigger] self@[i][j] == 0,
                    forall|i: int, j: int| 0 <= j < d && 0 <= i < n && i != j ==> #[trigger] self@[i][j] == 0,
                    forall|i: int| 0 <= i < ra ==> #[trigger] self@[i][d as int] == 0,
                decreases d - ra,
            {
                let v = self.get(ra, d);
                if v != 0 {
                    let ghost before = self@;
                    self.add_scaled_row(ra, d, v);
                    proof {
                        lemma_add_keeps(before, a, p, w0, nn, ra as int, d as int, v);
                        p = add_col_spec(p, ra as int, d as int, v);
                        self.lemma_view();
                        assert(is_matrix(p, n as int, n as int));
                        lemma_mul_identity(v);
                        lemma_add_group(v, v);
                        lemma_add_group(1u8, 0u8);
                        lemma_add_group(0u8, 0u8);
                        assert forall|i: int| 0 <= i < n implies #[trigger] self@[i][i] == 1 by {
                            assert(before[i][i] == 1);
                            assert(i == ra ==> before[d as int][i] == 0);
                        }
                        assert forall|i: int, j: int| 0 <= j < i < n implies #[trigger] self@[i][j] == 0 by {
                            assert(before[i][j] == 0);
                            assert(i == ra ==> before[d as int][j] == 0);
                        }
                        assert forall|i: int, j: int| 0 <= j < d && 0 <= i < n && i != j implies #[trigger] self@[i][j] == 0 by {
                            assert(before[i][j] == 0);
                            assert(before[d as int][j] == 0);
                        }
                        assert forall|i: int| 0 <= i < ra + 1 implies #[trigger] self@[i][d as int] == 0 by {
                            assert(i < ra ==> before[i][d as int] == 0);
                        }
                    }
                }
                ra = ra + 1;
            }
            proof {
                assert forall|i: int, j: int| 0 <= j < d + 1 && 0 <= i < n && i != j implies #[trigger] self@[i][j] == 0 by {
                    if j == d && i > j {
                        assert(self@[i][j] == 0);
                    }
                }
            }
            d = d + 1;
        }
        proof {
            assert forall|i: int, j: int| 0 <= i < n && 0 <= j < n implies #[trigger] self@[i][j] == id_entry(i, j) by {
                if i == j {
                    assert(self@[i][i] == 1);
                }
            }
            lemma_elim_finish(self@, a, p, nn);
        }
        Ok(())
    }

    /// The inverse of a square matrix, or `SingularMatrix` exactly when it is
    /// singular (and so has no inverse, not even a left one).
    pub fn invert(&self) -> (r: Result<Matrix, MatrixError>)
        requires
            self.wf(),
            self.rows() == self.cols(),
            2 * self.cols() <= usize::MAX,
        ensures
            r matches Ok(inv) ==> inv.wf() && inv.rows() == self.rows() && inv.cols() == self.rows()
                && is_inverse(inv@, self@, self.rows()),
            r is Err ==> r == Err::<Matrix, MatrixError>(MatrixError::SingularMatrix) && singular(self@, self.rows()),
    {
        let n = self.row_count;
        let id = Matrix::identity(n);
        let mut work = self.augment(&id);
        proof {
            self.lemma_view();
        }
        match work.gaussian_elim(Ghost(self@)) {
            Ok(()) => {},
            Err(e) => return Err(e),
        }
        Ok(work.sub_matrix(0, n, n, 2 * n))
    }
}

/// The Vandermonde matrix whose entry `(r, c)` is the `r`-th field element to
/// the power `c`.
pub open spec fn vandermonde_spec(rows: nat, cols: nat) -> Seq<Seq<u8>> {
    Seq::new(rows, |r: int| Seq::new(cols, |c: int| gf_pow(r as u8, c as nat)))
}

impl Matrix {
    /// The product `self * rhs`; the column count of `self` must be the row
    /// count of `rhs`.
    pub fn multiply(&self, rhs: &Matrix) -> (r: Result<Matrix, MatrixError>)
        requires
            self.wf(),
            rhs.wf(),
        ensures
            self.cols() != rhs.rows() ==> r == Err::<Matrix, MatrixError>(MatrixError::DimensionMismatch),
            self.cols() == rhs.rows() ==> (r matches Ok(m) && m.wf() && m.rows() == self.rows()
                && m.cols() == rhs.cols() && m@ == mat_mul(self@, rhs@, self.cols(), rhs.cols())),
    {
        if self.col_count != rhs.row_count {
            return Err(MatrixError::DimensionMismatch);
        }
        let n = self.col_count;
        let mut data: Vec<Vec<u8>> = Vec::with_capacity(self.row_count);
        let mut i: usize = 0;
        while i < self.row_count
            invariant
                self.wf(),
                rhs.wf(),
                n == self.cols(),
                n == rhs.rows(),
                i <= self.row_count,
                data@.len() == i,
                forall|k: int| 0 <= k < i ==> #[trigger] data@[k]@ == mat_mul(self@, rhs@, n as nat, rhs.cols())[k],
            decreases self.row_count - i,
        {
            let mut row: Vec<u8> = Vec::with_capacity(rhs.col_count);
            let mut j: usize = 0;
            while j < rhs.col_count
                invariant
                    self.wf(),
                    rhs.wf(),
                    n == self.cols(),
                    n == rhs.rows(),
                    i < self.row_count,
                    j <= rhs.col_count,
                    row@.len() == j,
                    forall|t: int| 0 <= t < j ==> #[trigger] row@[t] == prod_entry(self@, rhs@, n as nat, i as int, t),
                decreases rhs.col_count - j,
            {
                let mut acc: u8 = 0;
                let mut l: usize = 0;
                while l < n
                    invariant
                        self.wf(),
                        rhs.wf(),
                        n == self.cols(),
                        n == rhs.rows(),
                        i < self.row_count,
                        j < rhs.col_count,
                        l <= n,
                        acc == xsum(l as nat, |t: int| gf_mul(self@[i as int][t], rhs@[t][j as int])),
                    decreases n - l,
                {
                    acc = acc ^ crate::galois_8::mul(self.data[i][l], rhs.data[l][j]);
                    l = l + 1;
                }
                row.push(acc);
                j = j + 1;
            }
            proof {
                assert(row@ =~= mat_mul(self@, rhs@, n as nat, rhs.cols())[i as int]);
            }
            data.push(row);
            i = i + 1;
        }
        let m = Matrix { row_count: self.row_count, col_count: rhs.col_count, data };
        assert(m@ =~= mat_mul(self@, rhs@, n as nat, rhs.cols()));
        Ok(m)
    }

    /// The `rows` by `cols` Vandermonde matrix over the first `rows` field
    /// elements.
    pub fn vandermonde(rows: usize, cols: usize) -> (m: Matrix)
        requires
            rows <= 256,
        ensures
            m.wf(),
            m.rows() == rows,
            m.cols() == cols,
            m@ == vandermonde_spec(rows as nat, cols as nat),
    {
        let mut data: Vec<Vec<u8>> = Vec::with_capacity(rows);
        let mut r: usize = 0;
        while r < rows
            invariant
                rows <= 256,
                r <= rows,
                data@.len() == r,
                forall|k: int| 0 <= k < r ==> #[trigger] data@[k]@ == vandermonde_spec(rows as nat, cols as nat)[k],
            decreases rows - r,
        {
            let x = crate::galois_8::Field::nth(r);
            assert(x == r as u8);
            let mut row: Vec<u8> = Vec::with_capacity(cols);
            let mut c: usize = 0;
            while c < cols
                invariant
                    r < rows,
                    x == r as u8,
                    c <= cols,
                    row@.len() == c,
                    forall|t: int| 0 <= t < c ==> #[trigger] row@[t] == gf_pow(r as u8, t as nat),
                decreases cols - c,
            {
                row.push(crate::galois_8::exp(x, c));
                c = c + 1;
            }
            proof {
                assert(row@ =~= vandermonde_spec(rows as nat, cols as nat)[r as int]);
            }
            data.push(row);
            r = r + 1;
        }
        let m = Matrix { row_count: rows, col_count: cols, data };
        assert(m@ =~= vandermonde_spec(rows as nat, cols as nat));
        m
    }
}

impl Matrix {
    /// Multiply entry `(q, col)` by `s` for the rows `q` in `lo..hi`.
    pub fn scale_col_rows(&mut self, col: usize, s: u8, lo: usize, hi: usize)
        requires
            old(self).wf(),
            col < old(self).cols(),
            lo <= hi <= old(self).rows(),
        ensures
            final(self).wf(),
            final(self).rows() == old(self).rows(),
            final(self).cols() == old(self).cols(),
            forall|q: int, c: int| 0 <= q < old(self).rows() && 0 <= c < old(self).cols() ==> #[trigger] final(self)@[q][c] == if lo <= q < hi && c == col {
                gf_mul(old(self)@[q][c], s)
            } else {
                old(self)@[q][c]
            },
    {
        let ghost start = self@;
        proof {
            self.lemma_view();
        }
        let mut row: usize = lo;
        while row < hi
            invariant
                self.wf(),
                self.rows() == old(self).rows(),
                self.cols() == old(self).cols(),
                start == old(self)@,
                is_matrix(start, self.rows() as int, self.cols() as int),
                col < self.cols(),
                lo <= row <= hi <= self.rows(),
                forall|q: int, c: int| 0 <= q < self.rows() && 0 <= c < self.cols() ==> #[trigger] self@[q][c] == if lo <= q < row && c == col {
                    gf_mul(start[q][c], s)
                } else {
                    start[q][c]
                },
            decreases hi - row,
        {
            let v = crate::galois_8::mul(self.get(row, col), s);
            let ghost before = self@;
            proof {
                self.lemma_view();
            }
            self.set(row, col, v);
            assert forall|q: int, c: int| 0 <= q < self.rows() && 0 <= c < self.cols() implies #[trigger] self@[q][c] == if lo <= q < row + 1 && c == col {
                gf_mul(start[q][c], s)
            } else {
                start[q][c]
            } by {
                assert(before[q][c] == if lo <= q < row && c == col {
                    gf_mul(start[q][c], s)
                } else {
                    start[q][c]
                });
            }
            row = row + 1;
        }
    }

    /// Add `value` times column `src` to column `dst`, in every row.
    pub fn add_scaled_col(&mut self, dst: usize, src: usize, value: u8)
        requires
            old(self).wf(),
            dst < old(self).cols(),
            src < old(self).cols(),
            dst != src,
        ensures
            final(self).wf(),
            final(self).rows() == old(self).rows(),
            final(self).cols() == old(self).cols(),
            forall|q: int, c: int| 0 <= q < old(self).rows() && 0 <= c < old(self).cols() ==> #[trigger] final(self)@[q][c] == if c == dst {
                old(self)@[q][dst as int] ^ gf_mul(value, old(self)@[q][src as int])
            } else {
                old(self)@[q][c]
            },
    {
        let ghost start = self@;
        proof {
            self.lemma_view();
        }
        let mut row: usize = 0;
        while row < self.row_count
            invariant
                self.wf(),
                self.rows() == old(self).rows(),
                self.cols() == old(self).cols(),
                start == old(self)@,
                is_matrix(start, self.rows() as int, self.cols() as int),
                dst < self.cols(),
                src < self.cols(),
                dst != src,
                row <= self.rows(),
                forall|q: int, c: int| 0 <= q < self.rows() && 0 <= c < self.cols() ==> #[trigger] self@[q][c] == if q < row && c == dst {
                    start[q][dst as int] ^ gf_mul(value, start[q][src as int])
                } else {
                    start[q][c]
                },
            decreases self.rows() - row,
        {
            assert(self@[row as int][src as int] == start[row as int][src as int]);
            let v = self.get(row, dst) ^ crate::galois_8::mul(value, self.get(row, src));
            let ghost before = self@;
            proof {
                self.lemma_view();
            }
            self.set(row, dst, v);
            assert forall|q: int, c: int| 0 <= q < self.rows() && 0 <= c < self.cols() implies #[trigger] self@[q][c] == if q < row + 1 && c == dst {
                start[q][dst as int] ^ gf_mul(value, start[q][src as int])
            } else {
                start[q][c]
            } by {
                assert(before[q][c] == if q < row && c == dst {
                    start[q][dst as int] ^ gf_mul(value, start[q][src as int])
                } else {
                    start[q][c]
                });
            }
            row = row + 1;
        }
    }
}

/// One entry of a triple product does not depend on the grouping:
/// `sum_l a[i][l] * (b c)[l][j] == sum_t (a b)[i][t] * c[t][j]`.
pub proof fn lemma_assoc_entry(a: Seq<Seq<u8>>, b: Seq<Seq<u8>>, c: Seq<Seq<u8>>, n: nat, i: int, j: int)
    ensures
        xsum(n, |l: int| gf_mul(a[i][l], prod_entry(b, c, n, l, j))) == xsum(n, |t: int| gf_mul(prod_entry(a, b, n, i, t), c[t][j])),
{
    let f = |l: int, t: int| gf_mul(a[i][l], gf_mul(b[l][t], c[t][j]));
    let left = |l: int| gf_mul(a[i][l], prod_entry(b, c, n, l, j));
    let left2 = |l: int| xsum(n, |t: int| f(l, t));
    assert forall|l: int| 0 <= l < n implies #[trigger] left(l) == left2(l) by {
        lemma_xsum_scale(n, a[i][l], |t: int| gf_mul(b[l][t], c[t][j]), |t: int| f(l, t));
    }
    lemma_xsum_ext(n, left, left2);
    lemma_xsum_exchange(n, n, f);
    let right = |t: int| gf_mul(prod_entry(a, b, n, i, t), c[t][j]);
    let right2 = |t: int| xsum(n, |l: int| f(l, t));
    assert forall|t: int| 0 <= t < n implies #[trigger] right2(t) == right(t) by {
        let g = |l: int| gf_mul(a[i][l], b[l][t]);
        assert forall|l: int| 0 <= l < n implies #[trigger] f(l, t) == gf_mul(c[t][j], g(l)) by {
            lemma_mul_associative(a[i][l], b[l][t], c[t][j]);
            lemma_mul_commutative(g(l), c[t][j]);
        }
        lemma_xsum_scale(n, c[t][j], g, |l: int| f(l, t));
        lemma_mul_commutative(c[t][j], xsum(n, g));
    }
    lemma_xsum_ext(n, right2, right);
}

/// A sum of a row times the identity picks the entry on the diagonal.
pub proof fn lemma_times_identity(n: nat, f: spec_fn(int) -> u8, i: int)
    requires
        0 <= i < n,
    ensures
        xsum(n, |t: int| gf_mul(f(t), id_entry(t, i))) == f(i),
        xsum(n, |t: int| gf_mul(id_entry(i, t), f(t))) == f(i),
{
    let g = |t: int| gf_mul(f(t), id_entry(t, i));
    assert forall|t: int| 0 <= t < n && t != i implies #[trigger] g(t) == 0 by {
        lemma_mul_identity(f(t));
    }
    lemma_mul_identity(f(i));
    lemma_xsum_single(n, g, i);
    let h = |t: int| gf_mul(id_entry(i, t), f(t));
    assert forall|t: int| 0 <= t < n && t != i implies #[trigger] h(t) == 0 by {
        lemma_mul_identity(f(t));
    }
    lemma_xsum_single(n, h, i);
}

/// A matrix has one inverse.
pub proof fn lemma_inverse_unique(inv1: Seq<Seq<u8>>, inv2: Seq<Seq<u8>>, a: Seq<Seq<u8>>, n: nat)
    requires
        is_inverse(inv1, a, n),
        is_inverse(inv2, a, n),
    ensures
        forall|i: int, j: int| 0 <= i < n && 0 <= j < n ==> #[trigger] inv1[i][j] == inv2[i][j],
{
    assert forall|i: int, j: int| 0 <= i < n && 0 <= j < n implies #[trigger] inv1[i][j] == inv2[i][j] by {
        lemma_assoc_entry(inv1, a, inv2, n, i, j);
        lemma_xsum_ext(
            n,
            |l: int| gf_mul(inv1[i][l], prod_entry(a, inv2, n, l, j)),
            |l: int| gf_mul(inv1[i][l], id_entry(l, j)),
        );
        lemma_times_identity(n, |l: int| inv1[i][l], j);
        lemma_xsum_ext(n, |l: int| gf_mul(inv1[i][l], id_entry(l, j)), |t: int| gf_mul((|l: int| inv1[i][l])(t), id_entry(t, j)));
        lemma_xsum_ext(
            n,
            |t: int| gf_mul(prod_entry(inv1, a, n, i, t), inv2[t][j]),
            |t: int| gf_mul(id_entry(i, t), inv2[t][j]),
        );
        lemma_times_identity(n, |t: int| inv2[t][j], i);
        lemma_xsum_ext(n, |t: int| gf_mul(id_entry(i, t), inv2[t][j]), |t: int| gf_mul(id_entry(i, t), (|l: int| inv2[l][j])(t)));
    }
}

/// A singular matrix has no left inverse: a left inverse would send the zero
/// image of a non-zero vector back to that vector.
pub proof fn lemma_singular_no_left_inverse(a: Seq<Seq<u8>>, n: nat)
    requires
        singular(a, n),
    ensures
        forall|b: Seq<Seq<u8>>| !#[trigger] is_left_inverse(b, a, n),
{
    let x = choose|x: Seq<u8>| #[trigger] kernel_vector(a, n, x);
    let i0 = choose|i: int| 0 <= i < n && #[trigger] x[i] != 0;
    let xm = Seq::new(n, |l: int| seq![x[l]]);
    assert forall|l: int| 0 <= l < n implies #[trigger] prod_entry(a, xm, n, l, 0) == 0 by {
        assert(dot(a[l], x, n) == 0);
        lemma_xsum_ext(n, |t: int| gf_mul(a[l][t], x[t]), |t: int| gf_mul(a[l][t], xm[t][0]));
    }
    assert forall|b: Seq<Seq<u8>>| !#[trigger] is_left_inverse(b, a, n) by {
        if is_left_inverse(b, a, n) {
            lemma_assoc_entry(b, a, xm, n, i0, 0);
            assert forall|l: int| 0 <= l < n implies #[trigger] gf_mul(b[i0][l], prod_entry(a, xm, n, l, 0)) == 0 by {
                lemma_mul_identity(b[i0][l]);
            }
            lemma_xsum_zero(n, |l: int| gf_mul(b[i0][l], prod_entry(a, xm, n, l, 0)));
            assert forall|t: int| 0 <= t < n implies #[trigger] prod_entry(b, a, n, i0, t) == id_entry(i0, t) by {}
            lemma_xsum_ext(
                n,
                |t: int| gf_mul(prod_entry(b, a, n, i0, t), xm[t][0]),
                |t: int| gf_mul(id_entry(i0, t), (|l: int| x[l])(t)),
            );
            lemma_times_identity(n, |l: int| x[l], i0);
            assert(false);
        }
    }
}

/// Distinct field elements have a non-zero sum.
pub proof fn lemma_distinct_sum_nonzero(x: u8, y: u8)
    requires
        x != y,
    ensures
        x ^ y != 0,
{
    lemma_add_associative(x, y, y);
    lemma_add_group(y, y);
    lemma_add_group(x, 0u8);
    lemma_add_group(0u8, y);
}

/// The polynomial with coefficients `p[0..n]` (constant term first),
/// evaluated at `t`.
pub open spec fn eval_poly(p: Seq<u8>, n: nat, t: u8) -> u8 {
    xsum(n, |c: int| gf_mul(p[c], gf_pow(t, c as nat)))
}

/// Coefficient `i` of the quotient of the polynomial `p[0..n]` by `t + a`,
/// by synthetic division from the top.
pub open spec fn quot(p: Seq<u8>, n: nat, a: u8, i: int) -> u8
    decreases n - i,
{
    if i + 1 >= n {
        0u8
    } else {
        p[i + 1] ^ gf_mul(a, quot(p, n, a, i + 1))
    }
}

/// A sum whose first term is zero is the sum of the others, shifted down.
proof fn lemma_xsum_shift(n: nat, f: spec_fn(int) -> u8)
    requires
        n >= 1,
        f(0) == 0,
    ensures
        xsum(n, f) == xsum((n - 1) as nat, |i: int| f(i + 1)),
    decreases n,
{
    let g = |i: int| f(i + 1);
    if n == 1 {
        assert(xsum(0, f) == 0);
        assert(xsum(1, f) == xsum(0, f) ^ f(0));
        lemma_add_group(0u8, 0u8);
        assert(xsum(0, g) == 0);
    } else {
        lemma_xsum_shift((n - 1) as nat, f);
        assert(xsum((n - 1) as nat, f) == xsum((n - 2) as nat, g));
        assert(xsum(n, f) == xsum((n - 1) as nat, f) ^ f(n - 1));
        assert(g(n - 2) == f(n - 1));
        assert(xsum((n - 1) as nat, g) == xsum((n - 2) as nat, g) ^ g(n - 2));
    }
}

/// Synthetic division: `p(t) == (t + a) q(t) + r`, with `q` the quotient and
/// `r` the remainder.
pub proof fn lemma_eval_division(p: Seq<u8>, n: nat, a: u8, t: u8)
    requires
        n >= 1,
    ensures
        eval_poly(p, n, t) == gf_mul(t ^ a, eval_poly(Seq::new((n - 1) as nat, |i: int| quot(p, n, a, i)), (n - 1) as nat, t))
            ^ (p[0] ^ gf_mul(a, quot(p, n, a, 0))),
{
    let m = (n - 1) as nat;
    let qs = Seq::new(m, |i: int| quot(p, n, a, i));
    let rem = p[0] ^ gf_mul(a, quot(p, n, a, 0));
    let big_p = |c: int| gf_mul(p[c], gf_pow(t, c as nat));
    let g = |c: int| if c >= 1 { gf_mul(quot(p, n, a, c - 1), gf_pow(t, c as nat)) } else { 0u8 };
    let h = |c: int| gf_mul(gf_mul(a, quot(p, n, a, c)), gf_pow(t, c as nat));
    let e = |c: int| if c == 0 { rem } else { 0u8 };
    let gh = |c: int| g(c) ^ h(c);
    assert forall|c: int| 0 <= c < n implies #[trigger] big_p(c) == gh(c) ^ e(c) by {
        let tc = gf_pow(t, c as nat);
        let aq = gf_mul(a, quot(p, n, a, c));
        if c >= 1 {
            // quot(c - 1) == p[c] + a quot(c)
            lemma_xor_cancel(p[c], aq);
            lemma_mul_distributive(tc, quot(p, n, a, c - 1), aq);
            lemma_add_group(gh(c), 0u8);
        } else {
            lemma_xor_cancel(p[0], aq);
            lemma_mul_identity(p[0]);
            lemma_mul_identity(aq);
            lemma_add_group(0u8, aq);
            lemma_add_group(aq, rem);
        }
    }
    lemma_xsum_add(n, g, h, gh);
    lemma_xsum_add(n, gh, e, big_p);
    lemma_xsum_single(n, e, 0);
    // the shifted part is t times the quotient
    lemma_xsum_shift(n, g);
    let q_term = |i: int| gf_mul(qs[i], gf_pow(t, i as nat));
    assert forall|i: int| 0 <= i < m implies #[trigger] g(i + 1) == gf_mul(t, q_term(i)) by {
        lemma_mul_associative(t, qs[i], gf_pow(t, i as nat));
        lemma_mul_associative(qs[i], t, gf_pow(t, i as nat));
        lemma_mul_commutative(t, qs[i]);
    }
    lemma_xsum_scale(m, t, q_term, |i: int| g(i + 1));
    // the other part is a times the quotient
    assert(h(m as int) == 0) by {
        lemma_mul_identity(a);
        lemma_mul_identity(gf_pow(t, m));
    }
    lemma_add_group(xsum(m, h), 0u8);
    assert forall|i: int| 0 <= i < m implies #[trigger] h(i) == gf_mul(a, q_term(i)) by {
        lemma_mul_associative(a, qs[i], gf_pow(t, i as nat));
    }
    lemma_xsum_scale(m, a, q_term, h);
    lemma_mul_distributive(eval_poly(qs, m, t), t, a);
}

/// A polynomial with `n` coefficients that vanishes at `n` distinct points is
/// zero.
pub proof fn lemma_poly_roots(p: Seq<u8>, n: nat, pts: Seq<u8>)
    requires
        pts.len() == n,
        forall|i: int, j: int| 0 <= i < j < n ==> #[trigger] pts[i] != #[trigger] pts[j],
        forall|j: int| 0 <= j < n ==> #[trigger] eval_poly(p, n, pts[j]) == 0,
    ensures
        forall|c: int| 0 <= c < n ==> #[trigger] p[c] == 0,
    decreases n,
{
    if n > 0 {
        let m = (n - 1) as nat;
        let a = pts[m as int];
        let qs = Seq::new(m, |i: int| quot(p, n, a, i));
        let rem = p[0] ^ gf_mul(a, quot(p, n, a, 0));
        assert(eval_poly(p, n, pts[m as int]) == 0);
        lemma_eval_division(p, n, a, a);
        lemma_add_group(a, a);
        lemma_mul_identity(eval_poly(qs, m, a));
        lemma_add_group(0u8, rem);
        lemma_add_group(rem, 0u8);
        assert(rem == 0);
        let rest = pts.take(m as int);
        assert forall|j: int| 0 <= j < m implies #[trigger] eval_poly(qs, m, rest[j]) == 0 by {
            let b = pts[j];
            assert(eval_poly(p, n, b) == 0);
            lemma_eval_division(p, n, a, b);
            lemma_add_group(gf_mul(b ^ a, eval_poly(qs, m, b)), 0u8);
            lemma_distinct_sum_nonzero(b, a);
            lemma_no_zero_divisors(b ^ a, eval_poly(qs, m, b));
        }
        lemma_poly_roots(qs, m, rest);
        assert forall|c: int| 0 <= c < n implies #[trigger] p[c] == 0 by {
            let aq = gf_mul(a, quot(p, n, a, c));
            assert(quot(p, n, a, c) == 0) by {
                if c < m {
                    assert(qs[c] == 0);
                }
            }
            lemma_mul_identity(a);
            if c >= 1 {
                assert(qs[c - 1] == 0);
                lemma_xor_cancel(p[c], aq);
                lemma_add_group(0u8, 0u8);
            } else {
                lemma_xor_cancel(p[0], aq);
                lemma_add_group(0u8, 0u8);
            }
        }
    }
}

} // verus!
