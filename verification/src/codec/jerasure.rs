//! The Jerasure-style encoding matrix. It starts from a Vandermonde matrix
//! whose last row is the last unit row; column operations turn its top square
//! into the identity without ever meeting a zero pivot, and scalings make the
//! first parity row and the first column all ones. The result is stated entry
//! by entry (`is_jerasure_code`), is unique, and loses nothing: any `data` of
//! its rows are independent, since row swaps, row scalings by non-zero
//! elements and invertible column operations all keep that property of the
//! starting matrix.
use vstd::prelude::*;

use crate::codec::reconstruct::{first_indices, lemma_vandermonde_rows_nonsingular, rows_at};
use crate::galois_8::{
    gf_div, gf_mul, gf_pow, lemma_add_group, lemma_mul_associative, lemma_mul_commutative, lemma_mul_distributive,
    lemma_mul_identity, lemma_no_zero_divisors, lemma_pow_zero_base,
};
use crate::matrix::{
    dot, eval_poly, id_entry, identity_spec, is_matrix, kernel_vector, lemma_poly_roots, lemma_times_identity,
    lemma_xor_cancel, lemma_xsum_add, lemma_xsum_ext, lemma_xsum_scale, lemma_xsum_update, prod_entry, scale_row_spec,
    singular, swap_rows_spec, vandermonde_spec, xsum,
};

verus! {

/// `v` names `k` distinct rows below `total`.
pub open spec fn row_choice(v: Seq<usize>, k: nat, total: nat) -> bool {
    &&& v.len() == k
    &&& forall|j: int| 0 <= j < k ==> #[trigger] v[j] < total
    &&& forall|a: int, b: int| 0 <= a < b < k ==> #[trigger] v[a] != #[trigger] v[b]
}

/// Any `k` distinct rows among the first `total` rows of `m` form a
/// non-singular matrix.
pub open spec fn rows_independent(m: Seq<Seq<u8>>, k: nat, total: nat) -> bool {
    forall|v: Seq<usize>| row_choice(v, k, total) ==> !#[trigger] singular(rows_at(m, v), k)
}

/// Exchanging two rows keeps the rows independent.
pub(crate) proof fn lemma_swap_rows_independent(m: Seq<Seq<u8>>, k: nat, total: nat, r1: usize, r2: usize)
    requires
        rows_independent(m, k, total),
        m.len() == total,
        0 <= r1 < total,
        0 <= r2 < total,
    ensures
        rows_independent(swap_rows_spec(m, r1 as int, r2 as int), k, total),
{
    let m2 = swap_rows_spec(m, r1 as int, r2 as int);
    assert forall|v: Seq<usize>| row_choice(v, k, total) implies !#[trigger] singular(rows_at(m2, v), k) by {
        let w = Seq::new(k, |j: int| if v[j] == r1 { r2 } else if v[j] == r2 { r1 } else { v[j] });
        assert forall|a: int, b: int| 0 <= a < b < k implies #[trigger] w[a] != #[trigger] w[b] by {
            assert(v[a] != v[b]);
        }
        assert forall|j: int| 0 <= j < k implies #[trigger] w[j] < total by {
            assert(v[j] < total);
        }
        assert(row_choice(w, k, total));
        assert forall|j: int| 0 <= j < k implies #[trigger] rows_at(m2, v)[j] == rows_at(m, w)[j] by {
            assert(v[j] < total);
        }
        assert(rows_at(m2, v) =~= rows_at(m, w));
        assert(!singular(rows_at(m, w), k));
    }
}

/// Scaling a row by a non-zero element keeps the rows independent.
pub(crate) proof fn lemma_scale_row_independent(m: Seq<Seq<u8>>, k: nat, total: nat, r: int, s: u8)
    requires
        rows_independent(m, k, total),
        is_matrix(m, total as int, k as int),
        0 <= r < total,
        s != 0,
    ensures
        rows_independent(scale_row_spec(m, r, s), k, total),
{
    let m2 = scale_row_spec(m, r, s);
    assert forall|v: Seq<usize>| row_choice(v, k, total) implies !#[trigger] singular(rows_at(m2, v), k) by {
        if singular(rows_at(m2, v), k) {
            let x = choose|x: Seq<u8>| #[trigger] kernel_vector(rows_at(m2, v), k, x);
            assert forall|j: int| 0 <= j < k implies #[trigger] dot(rows_at(m, v)[j], x, k) == 0 by {
                assert(dot(rows_at(m2, v)[j], x, k) == 0);
                let q = v[j] as int;
                assert(v[j] < total);
                assert(rows_at(m, v)[j] == m[q]);
                assert(rows_at(m2, v)[j] == m2[q]);
                if q != r {
                    assert(m2[q] == m[q]);
                } else {
                    let f = |c: int| gf_mul(m[q][c], x[c]);
                    let g = |c: int| gf_mul(m2[q][c], x[c]);
                    assert forall|c: int| 0 <= c < k implies #[trigger] g(c) == gf_mul(s, f(c)) by {
                        lemma_mul_associative(s, m[q][c], x[c]);
                    }
                    lemma_xsum_scale(k, s, f, g);
                    lemma_no_zero_divisors(s, xsum(k, f));
                }
            }
            let i0 = choose|i: int| 0 <= i < k && #[trigger] x[i] != 0;
            assert(x[i0] != 0);
            assert(kernel_vector(rows_at(m, v), k, x));
            assert(singular(rows_at(m, v), k));
        }
    }
}

/// Multiplying column `col` by a non-zero element, in every row, keeps the
/// rows independent.
pub(crate) proof fn lemma_scale_col_independent(m: Seq<Seq<u8>>, m2: Seq<Seq<u8>>, k: nat, total: nat, col: int, s: u8)
    requires
        rows_independent(m, k, total),
        is_matrix(m, total as int, k as int),
        is_matrix(m2, total as int, k as int),
        0 <= col < k,
        s != 0,
        forall|q: int, c: int| 0 <= q < total && 0 <= c < k ==> #[trigger] m2[q][c] == if c == col { gf_mul(m[q][c], s) } else { m[q][c] },
    ensures
        rows_independent(m2, k, total),
{
    assert forall|v: Seq<usize>| row_choice(v, k, total) implies !#[trigger] singular(rows_at(m2, v), k) by {
        if singular(rows_at(m2, v), k) {
            let x = choose|x: Seq<u8>| #[trigger] kernel_vector(rows_at(m2, v), k, x);
            let y = x.update(col, gf_mul(s, x[col]));
            assert forall|j: int| 0 <= j < k implies #[trigger] dot(rows_at(m, v)[j], y, k) == 0 by {
                assert(dot(rows_at(m2, v)[j], x, k) == 0);
                let q = v[j] as int;
                assert(v[j] < total);
                assert(rows_at(m, v)[j] == m[q]);
                assert(rows_at(m2, v)[j] == m2[q]);
                assert forall|c: int| 0 <= c < k implies #[trigger] gf_mul(m[q][c], y[c]) == gf_mul(m2[q][c], x[c]) by {
                    if c == col {
                        lemma_mul_associative(m[q][c], s, x[c]);
                    }
                }
                lemma_xsum_ext(k, |c: int| gf_mul(m[q][c], y[c]), |c: int| gf_mul(m2[q][c], x[c]));
            }
            let i0 = choose|i: int| 0 <= i < k && #[trigger] x[i] != 0;
            assert(y[i0] != 0) by {
                if i0 == col {
                    lemma_no_zero_divisors(s, x[col]);
                }
            }
            assert(kernel_vector(rows_at(m, v), k, y));
            assert(singular(rows_at(m, v), k));
        }
    }
}

/// Multiplying column `col` by a non-zero element in the rows from `lo` on,
/// when the rows above are rows of the identity, keeps the rows independent.
pub(crate) proof fn lemma_scale_col_below_independent(m: Seq<Seq<u8>>, m2: Seq<Seq<u8>>, k: nat, total: nat, col: int, s: u8, lo: int)
    requires
        rows_independent(m, k, total),
        is_matrix(m, total as int, k as int),
        is_matrix(m2, total as int, k as int),
        0 <= col < k,
        0 <= lo <= k,
        k <= total,
        s != 0,
        forall|q: int, c: int| 0 <= q < lo && 0 <= c < k ==> #[trigger] m[q][c] == id_entry(q, c),
        forall|q: int, c: int| 0 <= q < total && 0 <= c < k ==> #[trigger] m2[q][c] == if c == col && q >= lo {
            gf_mul(m[q][c], s)
        } else {
            m[q][c]
        },
    ensures
        rows_independent(m2, k, total),
{
    assert forall|v: Seq<usize>| row_choice(v, k, total) implies !#[trigger] singular(rows_at(m2, v), k) by {
        if singular(rows_at(m2, v), k) {
            let x = choose|x: Seq<u8>| #[trigger] kernel_vector(rows_at(m2, v), k, x);
            let y = x.update(col, gf_mul(s, x[col]));
            assert forall|j: int| 0 <= j < k implies #[trigger] dot(rows_at(m, v)[j], y, k) == 0 by {
                assert(dot(rows_at(m2, v)[j], x, k) == 0);
                let q = v[j] as int;
                assert(v[j] < total);
                assert(rows_at(m, v)[j] == m[q]);
                assert(rows_at(m2, v)[j] == m2[q]);
                if q >= lo {
                    assert forall|c: int| 0 <= c < k implies #[trigger] gf_mul(m[q][c], y[c]) == gf_mul(m2[q][c], x[c]) by {
                        if c == col {
                            lemma_mul_associative(m[q][c], s, x[c]);
                        }
                    }
                    lemma_xsum_ext(k, |c: int| gf_mul(m[q][c], y[c]), |c: int| gf_mul(m2[q][c], x[c]));
                } else {
                    // a row of the identity picks one entry
                    lemma_xsum_ext(k, |c: int| gf_mul(m2[q][c], x[c]), |c: int| gf_mul(id_entry(q, c), (|l: int| x[l])(c)));
                    lemma_times_identity(k, |l: int| x[l], q);
                    lemma_xsum_ext(k, |c: int| gf_mul(m[q][c], y[c]), |c: int| gf_mul(id_entry(q, c), (|l: int| y[l])(c)));
                    lemma_times_identity(k, |l: int| y[l], q);
                    lemma_mul_identity(s);
                }
            }
            let i0 = choose|i: int| 0 <= i < k && #[trigger] x[i] != 0;
            assert(y[i0] != 0) by {
                if i0 == col {
                    lemma_no_zero_divisors(s, x[col]);
                }
            }
            assert(kernel_vector(rows_at(m, v), k, y));
            assert(singular(rows_at(m, v), k));
        }
    }
}

/// Adding `value` times column `src` to column `dst` keeps the rows
/// independent.
pub(crate) proof fn lemma_add_col_independent(m: Seq<Seq<u8>>, m2: Seq<Seq<u8>>, k: nat, total: nat, dst: int, src: int, value: u8)
    requires
        rows_independent(m, k, total),
        is_matrix(m, total as int, k as int),
        is_matrix(m2, total as int, k as int),
        0 <= dst < k,
        0 <= src < k,
        dst != src,
        forall|q: int, c: int| 0 <= q < total && 0 <= c < k ==> #[trigger] m2[q][c] == if c == dst {
            m[q][dst] ^ gf_mul(value, m[q][src])
        } else {
            m[q][c]
        },
    ensures
        rows_independent(m2, k, total),
{
    assert forall|v: Seq<usize>| row_choice(v, k, total) implies !#[trigger] singular(rows_at(m2, v), k) by {
        if singular(rows_at(m2, v), k) {
            let x = choose|x: Seq<u8>| #[trigger] kernel_vector(rows_at(m2, v), k, x);
            let y = x.update(src, x[src] ^ gf_mul(value, x[dst]));
            assert forall|j: int| 0 <= j < k implies #[trigger] dot(rows_at(m, v)[j], y, k) == 0 by {
                assert(dot(rows_at(m2, v)[j], x, k) == 0);
                let q = v[j] as int;
                assert(v[j] < total);
                assert(rows_at(m, v)[j] == m[q]);
                assert(rows_at(m2, v)[j] == m2[q]);
                let f = |c: int| gf_mul(m2[q][c], x[c]);
                let g = |c: int| gf_mul(m[q][c], y[c]);
                let t = gf_mul(m[q][src], gf_mul(value, x[dst]));
                let h = |c: int| if c == dst { f(dst) ^ t } else { f(c) };
                // the extra term moves from column dst to column src
                lemma_mul_distributive(x[dst], m[q][dst], gf_mul(value, m[q][src]));
                lemma_mul_associative(value, m[q][src], x[dst]);
                lemma_mul_associative(m[q][src], value, x[dst]);
                lemma_mul_commutative(value, m[q][src]);
                assert(f(dst) == gf_mul(m[q][dst], x[dst]) ^ t);
                lemma_mul_distributive(m[q][src], x[src], gf_mul(value, x[dst]));
                assert(g(src) == f(src) ^ t);
                lemma_xsum_update(k, f, h, dst);
                lemma_xor_cancel(gf_mul(m[q][dst], x[dst]), t);
                assert(h(dst) == gf_mul(m[q][dst], x[dst]));
                lemma_xsum_update(k, h, g, src);
                lemma_xor_cancel(f(dst), t);
                lemma_xor_cancel(f(src), t);
                lemma_add_group(t, t);
                lemma_add_group(0u8, 0u8);
                assert forall|c: int| 0 <= c < k && c != dst implies #[trigger] h(c) == f(c) by {}
                assert forall|c: int| 0 <= c < k && c != src implies #[trigger] h(c) == g(c) by {}
                lemma_xor_cancel(xsum(k, f), t);
            }
            let i0 = choose|i: int| 0 <= i < k && #[trigger] x[i] != 0;
            assert(exists|i: int| 0 <= i < k && #[trigger] y[i] != 0) by {
                if i0 != src {
                    assert(y[i0] != 0);
                } else if x[dst] != 0 {
                    assert(y[dst] != 0);
                } else {
                    lemma_mul_identity(value);
                    lemma_add_group(x[src], 0u8);
                    assert(y[src] != 0);
                }
            }
            assert(kernel_vector(rows_at(m, v), k, y));
            assert(singular(rows_at(m, v), k));
        }
    }
}

/// The matrix that the Jerasure-style construction starts from: the
/// `total` by `k` Vandermonde matrix with its first row the first unit row
/// (which it already is) and its last row the last unit row.
pub open spec fn jerasure_start(total: nat, k: nat) -> Seq<Seq<u8>> {
    Seq::new(
        total,
        |r: int|
            Seq::new(
                k,
                |c: int|
                    if r == 0 {
                        id_entry(0, c)
                    } else if r == total - 1 {
                        id_entry(k - 1, c)
                    } else {
                        gf_pow(r as u8, c as nat)
                    },
            ),
    )
}

/// The vector of `k` entries that is one at `c` and zero elsewhere.
pub open spec fn unit_vector(k: nat, c: int) -> Seq<u8> {
    Seq::new(k, |l: int| id_entry(c, l))
}

/// A row times the unit vector at `c` is the row's entry `c`.
pub(crate) proof fn lemma_dot_unit(row: Seq<u8>, k: nat, c: int)
    requires
        0 <= c < k,
    ensures
        dot(row, unit_vector(k, c), k) == row[c],
{
    let u = unit_vector(k, c);
    lemma_times_identity(k, |t: int| row[t], c);
    lemma_xsum_ext(k, |l: int| gf_mul(row[l], u[l]), |t: int| gf_mul((|t: int| row[t])(t), id_entry(t, c)));
}

/// A row of the Vandermonde matrix at point `p` times `x` is the polynomial
/// with coefficients `x` at `p`.
proof fn lemma_dot_vandermonde_row(row: Seq<u8>, x: Seq<u8>, k: nat, p: u8)
    requires
        forall|c: int| 0 <= c < k ==> #[trigger] row[c] == gf_pow(p, c as nat),
    ensures
        dot(row, x, k) == eval_poly(x, k, p),
{
    assert forall|l: int| 0 <= l < k implies #[trigger] gf_mul(row[l], x[l]) == gf_mul(x[l], gf_pow(p, l as nat)) by {
        lemma_mul_commutative(row[l], x[l]);
    }
    lemma_xsum_ext(k, |l: int| gf_mul(row[l], x[l]), |c: int| gf_mul(x[c], gf_pow(p, c as nat)));
}

/// Any `k` rows of the starting matrix are independent: rows at distinct
/// points of a Vandermonde matrix are, and the last unit row stands for the
/// leading coefficient, which leaves a polynomial of lower degree.
pub proof fn lemma_jerasure_start_independent(total: nat, k: nat)
    requires
        0 < k < total <= 256,
    ensures
        is_matrix(jerasure_start(total, k), total as int, k as int),
        rows_independent(jerasure_start(total, k), k, total),
{
    let a = jerasure_start(total, k);
    let vm = vandermonde_spec(total, k);
    // every row but the last is the Vandermonde row at its index
    assert forall|r: int, c: int| 0 <= r < total - 1 && 0 <= c < k implies #[trigger] a[r][c] == gf_pow(r as u8, c as nat) by {
        if r == 0 && c > 0 {
            lemma_pow_zero_base(c as nat);
        }
    }
    assert forall|v: Seq<usize>| row_choice(v, k, total) implies !#[trigger] singular(rows_at(a, v), k) by {
        if exists|j: int| 0 <= j < k && #[trigger] v[j] == total - 1 {
            let j0 = choose|j: int| 0 <= j < k && #[trigger] v[j] == total - 1;
            if singular(rows_at(a, v), k) {
                let x = choose|x: Seq<u8>| #[trigger] kernel_vector(rows_at(a, v), k, x);
                // the last unit row forces the top coefficient to zero
                assert(dot(rows_at(a, v)[j0], x, k) == 0);
                assert(rows_at(a, v)[j0] =~= unit_vector(k, k - 1));
                lemma_dot_unit(x, k, k - 1);
                assert forall|l: int| 0 <= l < k implies #[trigger] gf_mul(unit_vector(k, k - 1)[l], x[l]) == gf_mul(x[l], unit_vector(k, k - 1)[l]) by {
                    lemma_mul_commutative(unit_vector(k, k - 1)[l], x[l]);
                }
                lemma_xsum_ext(k, |l: int| gf_mul(unit_vector(k, k - 1)[l], x[l]), |l: int| gf_mul(x[l], unit_vector(k, k - 1)[l]));
                assert(x[k - 1] == 0);
                let m = (k - 1) as nat;
                let pts = Seq::new(m, |i: int| if i < j0 { v[i] as u8 } else { v[i + 1] as u8 });
                assert forall|i: int, j: int| 0 <= i < j < m implies #[trigger] pts[i] != #[trigger] pts[j] by {
                    let vi = if i < j0 { i } else { i + 1 };
                    let vj = if j < j0 { j } else { j + 1 };
                    assert(v[vi] != v[vj]);
                    assert(v[vi] < total && v[vj] < total);
                }
                assert forall|i: int| 0 <= i < m implies #[trigger] eval_poly(x, m, pts[i]) == 0 by {
                    let vi = if i < j0 { i } else { i + 1 };
                    assert(v[vi] != v[j0]);
                    assert(v[vi] < total);
                    let row = rows_at(a, v)[vi];
                    assert(row == a[v[vi] as int]);
                    assert(dot(row, x, k) == 0);
                    lemma_dot_vandermonde_row(row, x, k, pts[i]);
                    lemma_mul_identity(gf_pow(pts[i], m));
                    lemma_add_group(eval_poly(x, m, pts[i]), 0u8);
                }
                lemma_poly_roots(x, m, pts);
                let i0 = choose|i: int| 0 <= i < k && #[trigger] x[i] != 0;
                assert(x[i0] == 0);
            }
        } else {
            lemma_vandermonde_rows_nonsingular(total, k, v);
            assert forall|j: int| 0 <= j < k implies #[trigger] rows_at(a, v)[j] =~= rows_at(vm, v)[j] by {
                assert(v[j] < total);
                assert(v[j] != total - 1);
            }
            assert(rows_at(a, v) =~= rows_at(vm, v));
        }
    }
}

/// A column that is zero in every row makes some `k` rows dependent.
pub(crate) proof fn lemma_zero_column_dependent(m: Seq<Seq<u8>>, k: nat, total: nat, c: int)
    requires
        is_matrix(m, total as int, k as int),
        k <= total <= 256,
        0 <= c < k,
        forall|q: int| 0 <= q < total ==> #[trigger] m[q][c] == 0,
    ensures
        !rows_independent(m, k, total),
{
    let v = first_indices(k);
    let x = unit_vector(k, c);
    assert(row_choice(v, k, total));
    assert forall|j: int| 0 <= j < k implies #[trigger] dot(rows_at(m, v)[j], x, k) == 0 by {
        lemma_dot_unit(rows_at(m, v)[j], k, c);
        assert(rows_at(m, v)[j] == m[j]);
    }
    assert(x[c] != 0);
    assert(kernel_vector(rows_at(m, v), k, x));
    assert(singular(rows_at(m, v), k));
}

/// When the top `k` rows are the identity, a zero entry in a lower row makes
/// that row dependent on the other unit rows.
pub(crate) proof fn lemma_zero_entry_dependent(m: Seq<Seq<u8>>, k: nat, total: nat, r: usize, c: int)
    requires
        is_matrix(m, total as int, k as int),
        k <= r < total <= 256,
        0 <= c < k,
        forall|q: int, l: int| 0 <= q < k && 0 <= l < k ==> #[trigger] m[q][l] == id_entry(q, l),
        m[r as int][c] == 0,
    ensures
        !rows_independent(m, k, total),
{
    let v = Seq::new(k, |j: int| if j == c { r } else { j as usize });
    let x = unit_vector(k, c);
    assert(row_choice(v, k, total));
    assert forall|j: int| 0 <= j < k implies #[trigger] dot(rows_at(m, v)[j], x, k) == 0 by {
        lemma_dot_unit(rows_at(m, v)[j], k, c);
        if j != c {
            assert(rows_at(m, v)[j] == m[j]);
            assert(m[j][c] == id_entry(j, c));
        }
    }
    assert(x[c] != 0);
    assert(kernel_vector(rows_at(m, v), k, x));
    assert(singular(rows_at(m, v), k));
}

/// Entry `(q, c)` of `a * t` divided by entry `(k, c)`: column `c` scaled so
/// that the first parity row becomes all ones.
pub open spec fn parity_scaled(a: Seq<Seq<u8>>, t: Seq<Seq<u8>>, k: nat, q: int, c: int) -> u8 {
    gf_mul(prod_entry(a, t, k, q, c), gf_div(1, prod_entry(a, t, k, k as int, c)))
}

/// The Jerasure-style encoding matrix, entry `(q, c)`, from the starting
/// matrix `a` and a matrix `t` that turns its top square into the identity:
/// the identity on top, a first parity row of ones, and below it the rows of
/// `a * t` with each column scaled as `parity_scaled` says, each row then
/// divided by its first entry.
pub open spec fn jerasure_entry(a: Seq<Seq<u8>>, t: Seq<Seq<u8>>, k: nat, q: int, c: int) -> u8 {
    if q < k {
        id_entry(q, c)
    } else if q == k {
        1u8
    } else {
        gf_mul(gf_div(1, parity_scaled(a, t, k, q, 0)), parity_scaled(a, t, k, q, c))
    }
}

/// `t` is a `k` by `k` matrix that turns the top square of `a` into the
/// identity.
pub open spec fn top_right_inverse(a: Seq<Seq<u8>>, t: Seq<Seq<u8>>, k: nat) -> bool {
    &&& is_matrix(t, k as int, k as int)
    &&& forall|q: int, c: int| 0 <= q < k && 0 <= c < k ==> #[trigger] prod_entry(a, t, k, q, c) == id_entry(q, c)
}

/// `m` is the Jerasure-style encoding matrix of `k` data shards over `total`
/// rows: the starting matrix times the inverse of its top square,
/// normalized as `jerasure_entry` says. The top square of the starting
/// matrix is not singular, so `t`, and with it `m`, is unique.
pub open spec fn is_jerasure_code(m: Seq<Seq<u8>>, k: nat, total: nat) -> bool {
    exists|t: Seq<Seq<u8>>|
        #[trigger] top_right_inverse(jerasure_start(total, k), t, k)
            && forall|q: int, c: int| 0 <= q < total && 0 <= c < k ==> #[trigger] m[q][c] == jerasure_entry(jerasure_start(total, k), t, k, q, c)
}

/// Scaling column `col` of `t` by `s` scales column `col` of `a * t` by `s`.
pub(crate) proof fn lemma_prod_scale_col(a: Seq<Seq<u8>>, t: Seq<Seq<u8>>, t2: Seq<Seq<u8>>, k: nat, col: int, s: u8, q: int)
    requires
        forall|l: int| 0 <= l < k ==> #[trigger] t2[l][col] == gf_mul(t[l][col], s),
    ensures
        prod_entry(a, t2, k, q, col) == gf_mul(prod_entry(a, t, k, q, col), s),
{
    let f = |l: int| gf_mul(a[q][l], t[l][col]);
    let h = |l: int| gf_mul(a[q][l], t2[l][col]);
    assert forall|l: int| 0 <= l < k implies #[trigger] h(l) == gf_mul(s, f(l)) by {
        lemma_mul_associative(a[q][l], t[l][col], s);
        lemma_mul_commutative(s, f(l));
    }
    lemma_xsum_scale(k, s, f, h);
    lemma_mul_commutative(s, xsum(k, f));
}

/// Columns of `t` that agree give the same columns of `a * t`.
pub(crate) proof fn lemma_prod_same_col(a: Seq<Seq<u8>>, t: Seq<Seq<u8>>, t2: Seq<Seq<u8>>, k: nat, col: int, q: int)
    requires
        forall|l: int| 0 <= l < k ==> #[trigger] t2[l][col] == t[l][col],
    ensures
        prod_entry(a, t2, k, q, col) == prod_entry(a, t, k, q, col),
{
    lemma_xsum_ext(k, |l: int| gf_mul(a[q][l], t2[l][col]), |l: int| gf_mul(a[q][l], t[l][col]));
}

/// Adding `value` times column `src` of `t` to column `dst` does the same to
/// the columns of `a * t`.
pub(crate) proof fn lemma_prod_add_col(a: Seq<Seq<u8>>, t: Seq<Seq<u8>>, t2: Seq<Seq<u8>>, k: nat, dst: int, src: int, value: u8, q: int)
    requires
        forall|l: int| 0 <= l < k ==> #[trigger] t2[l][dst] == t[l][dst] ^ gf_mul(value, t[l][src]),
    ensures
        prod_entry(a, t2, k, q, dst) == prod_entry(a, t, k, q, dst) ^ gf_mul(value, prod_entry(a, t, k, q, src)),
{
    let f = |l: int| gf_mul(a[q][l], t[l][dst]);
    let e = |l: int| gf_mul(a[q][l], t[l][src]);
    let w = |l: int| gf_mul(value, e(l));
    let h = |l: int| gf_mul(a[q][l], t2[l][dst]);
    assert forall|l: int| 0 <= l < k implies #[trigger] h(l) == f(l) ^ w(l) by {
        lemma_mul_distributive(a[q][l], t[l][dst], gf_mul(value, t[l][src]));
        lemma_mul_associative(a[q][l], value, t[l][src]);
        lemma_mul_commutative(a[q][l], value);
        lemma_mul_associative(value, a[q][l], t[l][src]);
    }
    lemma_xsum_scale(k, value, e, w);
    lemma_xsum_add(k, f, w, h);
}

/// `a` times the identity is `a`.
pub(crate) proof fn lemma_prod_identity(a: Seq<Seq<u8>>, k: nat, q: int, c: int)
    requires
        0 <= c < k,
    ensures
        prod_entry(a, identity_spec(k), k, q, c) == a[q][c],
{
    let f = |l: int| a[q][l];
    lemma_times_identity(k, f, c);
    lemma_xsum_ext(k, |l: int| gf_mul(a[q][l], identity_spec(k)[l][c]), |l: int| gf_mul(f(l), id_entry(l, c)));
}

/// Coefficients from `m` on that are zero do not change a polynomial.
pub(crate) proof fn lemma_eval_poly_truncate(p: Seq<u8>, n: nat, m: nat, x: u8)
    requires
        m <= n,
        forall|c: int| m <= c < n ==> #[trigger] p[c] == 0,
    ensures
        eval_poly(p, n, x) == eval_poly(p, m, x),
    decreases n,
{
    if n > m {
        lemma_eval_poly_truncate(p, (n - 1) as nat, m, x);
        lemma_mul_identity(gf_pow(x, (n - 1) as nat));
        lemma_add_group(eval_poly(p, (n - 1) as nat, x), 0u8);
    }
}

/// During the reduction of column `i` of the starting matrix, the diagonal
/// entry is never zero: a column of `t` that is one at `i` and zero below
/// gives a polynomial of degree `i`, which cannot vanish at all the points
/// `0..=i` of the top rows.
pub(crate) proof fn lemma_pivot_nonzero(t: Seq<Seq<u8>>, k: nat, total: nat, i: int)
    requires
        0 < k < total <= 256,
        0 <= i < k,
        is_matrix(t, k as int, k as int),
        t[i][i] == 1,
        forall|l: int| i < l < k ==> #[trigger] t[l][i] == 0,
        forall|q: int| 0 <= q < i ==> #[trigger] prod_entry(jerasure_start(total, k), t, k, q, i) == 0,
    ensures
        prod_entry(jerasure_start(total, k), t, k, i, i) != 0,
{
    let a = jerasure_start(total, k);
    let y = Seq::new(k, |l: int| t[l][i]);
    let n = (i + 1) as nat;
    assert forall|q: int| 0 <= q <= i implies #[trigger] prod_entry(a, t, k, q, i) == eval_poly(y, n, q as u8) by {
        assert forall|c: int| 0 <= c < k implies #[trigger] a[q][c] == gf_pow(q as u8, c as nat) by {
            if q == 0 && c > 0 {
                lemma_pow_zero_base(c as nat);
            }
        }
        lemma_dot_vandermonde_row(a[q], y, k, q as u8);
        lemma_xsum_ext(k, |l: int| gf_mul(a[q][l], t[l][i]), |l: int| gf_mul(a[q][l], y[l]));
        lemma_eval_poly_truncate(y, k, n, q as u8);
    }
    if prod_entry(a, t, k, i, i) == 0 {
        let pts = Seq::new(n, |p: int| p as u8);
        assert forall|p: int| 0 <= p < n implies #[trigger] eval_poly(y, n, pts[p]) == 0 by {
            assert(prod_entry(a, t, k, p, i) == eval_poly(y, n, p as u8));
        }
        lemma_poly_roots(y, n, pts);
        assert(y[i] == 0);
    }
}

/// The top square of the starting matrix has one right inverse.
pub(crate) proof fn lemma_top_right_inverse_unique(t1: Seq<Seq<u8>>, t2: Seq<Seq<u8>>, k: nat, total: nat)
    requires
        0 < k < total <= 256,
        top_right_inverse(jerasure_start(total, k), t1, k),
        top_right_inverse(jerasure_start(total, k), t2, k),
    ensures
        forall|l: int, c: int| 0 <= l < k && 0 <= c < k ==> #[trigger] t1[l][c] == t2[l][c],
{
    let a = jerasure_start(total, k);
    lemma_jerasure_start_independent(total, k);
    let v = first_indices(k);
    assert(row_choice(v, k, total));
    assert(!singular(rows_at(a, v), k));
    assert forall|l: int, c: int| 0 <= l < k && 0 <= c < k implies #[trigger] t1[l][c] == t2[l][c] by {
        let x = Seq::new(k, |j: int| t1[j][c] ^ t2[j][c]);
        assert forall|q: int| 0 <= q < k implies #[trigger] dot(rows_at(a, v)[q], x, k) == 0 by {
            assert(rows_at(a, v)[q] == a[q]);
            let f = |j: int| gf_mul(a[q][j], t1[j][c]);
            let g = |j: int| gf_mul(a[q][j], t2[j][c]);
            assert forall|j: int| 0 <= j < k implies #[trigger] gf_mul(a[q][j], x[j]) == f(j) ^ g(j) by {
                lemma_mul_distributive(a[q][j], t1[j][c], t2[j][c]);
            }
            lemma_xsum_add(k, f, g, |j: int| gf_mul(a[q][j], x[j]));
            assert(prod_entry(a, t1, k, q, c) == prod_entry(a, t2, k, q, c));
            lemma_add_group(prod_entry(a, t1, k, q, c), 0u8);
        }
        if x[l] != 0 {
            assert(kernel_vector(rows_at(a, v), k, x));
        }
        lemma_xor_cancel(t1[l][c], t2[l][c]);
        lemma_add_group(t1[l][c], 0u8);
    }
}

/// There is one Jerasure-style code for each shape: two matrices that both
/// are it agree on every entry.
pub proof fn lemma_jerasure_code_unique(m1: Seq<Seq<u8>>, m2: Seq<Seq<u8>>, k: nat, total: nat)
    requires
        0 < k < total <= 256,
        is_jerasure_code(m1, k, total),
        is_jerasure_code(m2, k, total),
    ensures
        forall|q: int, c: int| 0 <= q < total && 0 <= c < k ==> #[trigger] m1[q][c] == m2[q][c],
{
    let a = jerasure_start(total, k);
    let t1 = choose|t: Seq<Seq<u8>>|
        #[trigger] top_right_inverse(a, t, k) && forall|q: int, c: int| 0 <= q < total && 0 <= c < k ==> #[trigger] m1[q][c] == jerasure_entry(a, t, k, q, c);
    let t2 = choose|t: Seq<Seq<u8>>|
        #[trigger] top_right_inverse(a, t, k) && forall|q: int, c: int| 0 <= q < total && 0 <= c < k ==> #[trigger] m2[q][c] == jerasure_entry(a, t, k, q, c);
    lemma_top_right_inverse_unique(t1, t2, k, total);
    assert forall|q: int, c: int| 0 <= q < total && 0 <= c < k implies #[trigger] m1[q][c] == m2[q][c] by {
        assert(m1[q][c] == jerasure_entry(a, t1, k, q, c));
        assert(m2[q][c] == jerasure_entry(a, t2, k, q, c));
        assert forall|r: int, l: int| 0 <= l < k implies #[trigger] prod_entry(a, t1, k, r, l) == prod_entry(a, t2, k, r, l) by {
            lemma_prod_same_col(a, t2, t1, k, l, r);
        }
        assert(prod_entry(a, t1, k, q, c) == prod_entry(a, t2, k, q, c));
        assert(prod_entry(a, t1, k, q, 0) == prod_entry(a, t2, k, q, 0));
        assert(prod_entry(a, t1, k, k as int, c) == prod_entry(a, t2, k, k as int, c));
        assert(prod_entry(a, t1, k, k as int, 0) == prod_entry(a, t2, k, k as int, 0));
    }
}

} // verus!