//! Cauchy codes lose nothing: any `data_shard_count` of their encoding rows
//! form a non-singular matrix, so any that many shards present are enough to
//! reconstruct.
use vstd::prelude::*;

use crate::codec::{CodecOptions, MatrixMode};
use crate::codec::classic::{cauchy_entry, is_cauchy_code, is_mds_code, is_vandermonde_code, matrix_for_mode, matrix_for_options};
use crate::codec::jerasure::row_choice;
use crate::codec::reconstruct::{lemma_vandermonde_code_rows_nonsingular, rows_at};
use crate::galois_8::{gf_mul, lemma_add_group, lemma_mul_identity};
use crate::matrix::{dot, id_entry, kernel_vector, lemma_times_identity, lemma_xsum_ext, lemma_xsum_single, singular, xsum};
use crate::poly::{cauchy_dot, lemma_cauchy_kernel};

verus! {

/// The columns below `n` that `v` does not name, in increasing order.
pub open spec fn absent_cols(v: Seq<usize>, n: nat) -> Seq<usize>
    decreases n,
{
    if n == 0 {
        Seq::empty()
    } else if v.contains((n - 1) as usize) {
        absent_cols(v, (n - 1) as nat)
    } else {
        absent_cols(v, (n - 1) as nat).push((n - 1) as usize)
    }
}

/// The entries of `v[..n]` at or past `k`, in order.
pub open spec fn parity_of(v: Seq<usize>, k: nat, n: nat) -> Seq<usize>
    decreases n,
{
    if n == 0 {
        Seq::empty()
    } else if v[n - 1] >= k {
        parity_of(v, k, (n - 1) as nat).push(v[n - 1])
    } else {
        parity_of(v, k, (n - 1) as nat)
    }
}

/// The absent columns are below `n`, increasing, not named by `v`, and every
/// column below `n` that `v` does not name is among them.
proof fn lemma_absent_cols(v: Seq<usize>, n: nat)
    requires
        n <= usize::MAX,
    ensures
        absent_cols(v, n).len() <= n,
        forall|l: int| 0 <= l < absent_cols(v, n).len() ==> #[trigger] absent_cols(v, n)[l] < n
            && !v.contains(absent_cols(v, n)[l]),
        forall|a: int, b: int| 0 <= a < b < absent_cols(v, n).len() ==> #[trigger] absent_cols(v, n)[a] < #[trigger] absent_cols(v, n)[b],
        forall|c: usize| c < n && !v.contains(c) ==> exists|l: int| 0 <= l < absent_cols(v, n).len() && #[trigger] absent_cols(v, n)[l] == c,
    decreases n,
{
    if n > 0 {
        let m = (n - 1) as nat;
        lemma_absent_cols(v, m);
        let s = absent_cols(v, m);
        let t = absent_cols(v, n);
        assert forall|c: usize| c < n && !v.contains(c) implies exists|l: int| 0 <= l < t.len() && #[trigger] t[l] == c by {
            if c < m {
                let l = choose|l: int| 0 <= l < s.len() && #[trigger] s[l] == c;
                assert(t[l] == c);
            } else {
                assert(t[s.len() as int] == c);
            }
        }
    }
}

/// The entries past `k` of `v[..n]` are entries of `v` there, at least `k`, and
/// as many as the entries not below `k`.
proof fn lemma_parity_of(v: Seq<usize>, k: nat, n: nat)
    requires
        n <= v.len(),
    ensures
        parity_of(v, k, n).len() <= n,
        forall|i: int| 0 <= i < parity_of(v, k, n).len() ==> #[trigger] parity_of(v, k, n)[i] >= k
            && exists|j: int| 0 <= j < n && v[j] == parity_of(v, k, n)[i],
    decreases n,
{
    if n > 0 {
        let m = (n - 1) as nat;
        lemma_parity_of(v, k, m);
        let p = parity_of(v, k, m);
        let q = parity_of(v, k, n);
        assert forall|i: int| 0 <= i < q.len() implies #[trigger] q[i] >= k && exists|j: int| 0 <= j < n && v[j] == q[i] by {
            if i < p.len() {
                assert(q[i] == p[i]);
                let j = choose|j: int| 0 <= j < m && v[j] == p[i];
                assert(v[j] == q[i]);
            } else {
                assert(v[m as int] == q[i]);
            }
        }
    }
}

/// With distinct entries, the entries past `k` of `v[..n]` are distinct.
proof fn lemma_parity_distinct(v: Seq<usize>, k: nat, n: nat)
    requires
        n <= v.len(),
        forall|a: int, b: int| 0 <= a < b < v.len() ==> #[trigger] v[a] != #[trigger] v[b],
    ensures
        forall|a: int, b: int| 0 <= a < b < parity_of(v, k, n).len() ==> #[trigger] parity_of(v, k, n)[a] != #[trigger] parity_of(v, k, n)[b],
    decreases n,
{
    if n > 0 {
        let m = (n - 1) as nat;
        lemma_parity_distinct(v, k, m);
        lemma_parity_of(v, k, m);
        let p = parity_of(v, k, m);
        let q = parity_of(v, k, n);
        assert forall|a: int, b: int| 0 <= a < b < q.len() implies #[trigger] q[a] != #[trigger] q[b] by {
            if b < p.len() {
                assert(q[a] == p[a] && q[b] == p[b]);
            } else {
                assert(q[a] == p[a]);
                let j = choose|j: int| 0 <= j < m && v[j] == p[a];
                assert(q[b] == v[m as int]);
                assert(v[j] != v[m as int]);
            }
        }
    }
}

/// Naming one more column below `bound` leaves one absent column fewer.
proof fn lemma_absent_push(v: Seq<usize>, w: usize, bound: nat)
    requires
        !v.contains(w),
        bound <= usize::MAX,
    ensures
        absent_cols(v.push(w), bound).len() + (if w < bound { 1int } else { 0int }) == absent_cols(v, bound).len(),
    decreases bound,
{
    if bound > 0 {
        let b = (bound - 1) as nat;
        lemma_absent_push(v, w, b);
        let c = b as usize;
        assert(v.push(w).contains(c) == (v.contains(c) || c == w)) by {
            if v.contains(c) {
                let i = choose|i: int| 0 <= i < v.len() && v[i] == c;
                assert(v.push(w)[i] == c);
            }
            if c == w {
                assert(v.push(w)[v.len() as int] == c);
            }
            if v.push(w).contains(c) {
                let i = choose|i: int| 0 <= i < v.push(w).len() && v.push(w)[i] == c;
                if i < v.len() {
                    assert(v[i] == c);
                }
            }
        }
    }
}

/// Every column below `bound` is absent from the empty list.
proof fn lemma_absent_empty(bound: nat)
    ensures
        absent_cols(Seq::<usize>::empty(), bound).len() == bound,
    decreases bound,
{
    if bound > 0 {
        lemma_absent_empty((bound - 1) as nat);
    }
}

/// The absent columns below `k` and the entries below `k` of `v[..n]` (the
/// entries not past `k`) add up to `k`.
proof fn lemma_absent_count(v: Seq<usize>, k: nat, n: nat)
    requires
        n <= v.len(),
        k <= usize::MAX,
        forall|a: int, b: int| 0 <= a < b < v.len() ==> #[trigger] v[a] != #[trigger] v[b],
    ensures
        absent_cols(v.take(n as int), k).len() + (n - parity_of(v, k, n).len()) == k,
    decreases n,
{
    if n == 0 {
        assert(v.take(0) =~= Seq::<usize>::empty());
        lemma_absent_empty(k);
    } else {
        let m = (n - 1) as nat;
        lemma_absent_count(v, k, m);
        lemma_parity_of(v, k, m);
        let w = v[m as int];
        assert(v.take(n as int) =~= v.take(m as int).push(w));
        assert(!v.take(m as int).contains(w)) by {
            if v.take(m as int).contains(w) {
                let i = choose|i: int| 0 <= i < m && v.take(m as int)[i] == w;
                assert(v[i] == v[m as int]);
            }
        }
        lemma_absent_push(v.take(m as int), w, k);
    }
}

/// A sum over the columns below `n` whose terms vanish at the columns that
/// `v` names is the sum over the absent columns.
proof fn lemma_sum_absent(v: Seq<usize>, n: nat, f: spec_fn(int) -> u8)
    requires
        n <= usize::MAX,
        forall|c: int| 0 <= c < n && v.contains(c as usize) ==> #[trigger] f(c) == 0,
    ensures
        xsum(n, f) == xsum(absent_cols(v, n).len(), |l: int| f(absent_cols(v, n)[l] as int)),
    decreases n,
{
    if n > 0 {
        let m = (n - 1) as nat;
        lemma_sum_absent(v, m, f);
        let s = absent_cols(v, m);
        let t = absent_cols(v, n);
        if v.contains(m as usize) {
            assert(f(m as int) == 0);
            lemma_add_group(xsum(m, f), 0u8);
        } else {
            lemma_xsum_ext(s.len(), |l: int| f(s[l] as int), |l: int| f(t[l] as int));
        }
    }
}

/// Any `k` distinct rows of a Cauchy code with `k` data shards form a
/// non-singular matrix: a vector they sent to zero would vanish on the data
/// columns they name, and the Cauchy rows among them would send the rest of it
/// to zero.
pub proof fn lemma_cauchy_code_rows_nonsingular(m: Seq<Seq<u8>>, k: nat, total: nat, v: Seq<usize>)
    requires
        0 < k <= total <= 256,
        forall|i: int, c: int| 0 <= i < total && 0 <= c < k ==> #[trigger] m[i][c] == cauchy_entry(k as int, i, c),
        v.len() == k,
        forall|j: int| 0 <= j < k ==> #[trigger] v[j] < total,
        forall|a: int, b: int| 0 <= a < b < k ==> #[trigger] v[a] != #[trigger] v[b],
    ensures
        !singular(rows_at(m, v), k),
{
    let rm = rows_at(m, v);
    if singular(rm, k) {
        let x = choose|x: Seq<u8>| #[trigger] kernel_vector(rm, k, x);
        // the data columns that v names carry zeros
        assert forall|c: int| 0 <= c < k && v.contains(c as usize) implies #[trigger] x[c] == 0 by {
            let j = choose|j: int| 0 <= j < v.len() && v[j] == c as usize;
            assert(dot(rm[j], x, k) == 0);
            lemma_xsum_ext(k, |l: int| gf_mul(rm[j][l], x[l]), |t: int| gf_mul(id_entry(c, t), (|l: int| x[l])(t)));
            lemma_times_identity(k, |l: int| x[l], c);
        }
        let s = absent_cols(v, k);
        let p = parity_of(v, k, k);
        lemma_absent_cols(v, k);
        lemma_parity_of(v, k, k);
        lemma_parity_distinct(v, k, k);
        lemma_absent_count(v, k, k);
        assert(v.take(k as int) =~= v);
        let j = s.len();
        assert(p.len() == j);
        let ys = Seq::new(j, |l: int| s[l] as u8);
        let xs = Seq::new(j, |i: int| p[i] as u8);
        let z = Seq::new(j, |l: int| x[s[l] as int]);
        assert forall|i: int| 0 <= i < j implies #[trigger] cauchy_dot(xs[i], ys, z, j) == 0 by {
            let r = p[i] as int;
            let jj = choose|jj: int| 0 <= jj < k && v[jj] == p[i];
            assert(dot(rm[jj], x, k) == 0);
            let f = |c: int| gf_mul(m[r][c], x[c]);
            assert forall|c: int| 0 <= c < k && v.contains(c as usize) implies #[trigger] f(c) == 0 by {
                assert(x[c] == 0);
                lemma_mul_identity(m[r][c]);
            }
            lemma_sum_absent(v, k, f);
            lemma_xsum_ext(j, |l: int| f(s[l] as int), |l: int| gf_mul(crate::galois_8::gf_div(1, xs[i] ^ ys[l]), z[l]));
        }
        assert forall|a: int, b: int| 0 <= a < b < j implies #[trigger] xs[a] != #[trigger] xs[b] by {
            assert(p[a] != p[b]);
        }
        assert forall|a: int, b: int| 0 <= a < b < j implies #[trigger] ys[a] != #[trigger] ys[b] by {
            assert(s[a] < s[b]);
        }
        assert forall|a: int, b: int| 0 <= a < j && 0 <= b < j implies #[trigger] xs[a] != #[trigger] ys[b] by {
            assert(p[a] >= k && s[b] < k);
        }
        lemma_cauchy_kernel(xs, ys, z, j);
        let i0 = choose|i: int| 0 <= i < k && #[trigger] x[i] != 0;
        if v.contains(i0 as usize) {
            assert(x[i0] == 0);
        } else {
            let l = choose|l: int| 0 <= l < s.len() && #[trigger] s[l] == i0 as usize;
            assert(z[l] == 0);
        }
    }
}

/// The code with one parity shard that is the sum of the data shards: the
/// identity on top of a row of ones.
pub open spec fn is_xor_parity_code(m: Seq<Seq<u8>>, k: nat, total: nat) -> bool {
    &&& total == k + 1
    &&& forall|r: int, c: int| 0 <= r < total && 0 <= c < k ==> #[trigger] m[r][c] == if r < k {
        id_entry(r, c)
    } else {
        1u8
    }
}

/// The sum-parity code loses nothing: `k` distinct rows among its `k + 1`
/// leave out at most one unit row, and the row of ones makes up for it.
pub proof fn lemma_xor_parity_code_is_mds(m: Seq<Seq<u8>>, k: nat, total: nat)
    requires
        is_xor_parity_code(m, k, total),
        0 < k < 256,
    ensures
        is_mds_code(m, k, total),
{
    assert forall|v: Seq<usize>| row_choice(v, k, total) implies !#[trigger] singular(rows_at(m, v), k) by {
        if singular(rows_at(m, v), k) {
            let x = choose|x: Seq<u8>| #[trigger] kernel_vector(rows_at(m, v), k, x);
            lemma_absent_count(v, k, k);
            assert(v.take(k as int) =~= v);
            lemma_absent_cols(v, k);
            lemma_parity_of(v, k, k);
            lemma_parity_distinct(v, k, k);
            let pv = parity_of(v, k, k);
            let ab = absent_cols(v, k);
            // every parity entry is the last row, so there is at most one
            assert(pv.len() <= 1) by {
                if pv.len() > 1 {
                    assert(pv[0] >= k && pv[1] >= k);
                    let j0 = choose|j: int| 0 <= j < k && v[j] == pv[0];
                    let j1 = choose|j: int| 0 <= j < k && v[j] == pv[1];
                    assert(v[j0] < total && v[j1] < total);
                    assert(pv[0] != pv[1]);
                }
            }
            // a unit row of `v` forces its entry of `x` to zero
            assert forall|c: int| 0 <= c < k && v.contains(c as usize) implies #[trigger] x[c] == 0 by {
                let j = choose|j: int| 0 <= j < v.len() && v[j] == c as usize;
                assert(rows_at(m, v)[j] == m[c]);
                assert(dot(m[c], x, k) == 0);
                lemma_times_identity(k, |t: int| x[t], c);
                lemma_xsum_ext(k, |l: int| gf_mul(m[c][l], x[l]), |t: int| gf_mul(id_entry(c, t), (|t: int| x[t])(t)));
            }
            let i0 = choose|i: int| 0 <= i < k && #[trigger] x[i] != 0;
            assert(!v.contains(i0 as usize));
            assert(ab.len() == 1) by {
                let l = choose|l: int| 0 <= l < ab.len() && #[trigger] ab[l] == i0 as usize;
            }
            assert(ab[0] == i0 as usize) by {
                let l = choose|l: int| 0 <= l < ab.len() && #[trigger] ab[l] == i0 as usize;
            }
            // the other entries vanish, and the row of ones is in `v`
            assert forall|c: int| 0 <= c < k && c != i0 implies #[trigger] x[c] == 0 by {
                if !v.contains(c as usize) {
                    let l = choose|l: int| 0 <= l < ab.len() && #[trigger] ab[l] == c as usize;
                }
            }
            assert(pv.len() == 1);
            let j = choose|j: int| 0 <= j < k && v[j] == pv[0];
            assert(v[j] == k);
            assert(rows_at(m, v)[j] == m[k as int]);
            assert(dot(m[k as int], x, k) == 0);
            assert forall|l: int| 0 <= l < k && l != i0 implies #[trigger] gf_mul(m[k as int][l], x[l]) == 0 by {
                lemma_mul_identity(m[k as int][l]);
            }
            lemma_xsum_single(k, |l: int| gf_mul(m[k as int][l], x[l]), i0);
            lemma_mul_identity(x[i0]);
        }
    }
}

/// Any `k` distinct rows of a code that loses nothing form a non-singular
/// matrix.
pub proof fn lemma_mds_rows_nonsingular(m: Seq<Seq<u8>>, k: nat, total: nat, v: Seq<usize>)
    requires
        is_mds_code(m, k, total),
        v.len() == k,
        forall|j: int| 0 <= j < k ==> #[trigger] v[j] < total,
        forall|a: int, b: int| 0 <= a < b < k ==> #[trigger] v[a] != #[trigger] v[b],
    ensures
        !singular(rows_at(m, v), k),
{
    assert(row_choice(v, k, total));
}

/// The Vandermonde code loses nothing: any `k` of its rows are independent.
pub proof fn lemma_vandermonde_code_is_mds(m: Seq<Seq<u8>>, k: nat, total: nat)
    requires
        is_vandermonde_code(m, k, total),
        total <= 256,
    ensures
        is_mds_code(m, k, total),
{
    assert forall|v: Seq<usize>| row_choice(v, k, total) implies !#[trigger] singular(rows_at(m, v), k) by {
        lemma_vandermonde_code_rows_nonsingular(m, k, total, v);
    }
}

/// The Cauchy code loses nothing: any `k` of its rows are independent.
pub proof fn lemma_cauchy_code_is_mds(m: Seq<Seq<u8>>, k: nat, total: nat)
    requires
        is_cauchy_code(m, k, total),
        0 < k <= total <= 256,
    ensures
        is_mds_code(m, k, total),
{
    assert forall|v: Seq<usize>| row_choice(v, k, total) implies !#[trigger] singular(rows_at(m, v), k) by {
        lemma_cauchy_code_rows_nonsingular(m, k, total, v);
    }
}

/// The encoding matrix that any options build loses nothing.
pub proof fn lemma_options_matrix_is_mds(options: CodecOptions, m: Seq<Seq<u8>>, k: nat, total: nat)
    requires
        matrix_for_options(options, m, k, total),
        0 < k < total <= 256,
    ensures
        is_mds_code(m, k, total),
{
    if options.fast_one_parity && total == k + 1 {
        lemma_xor_parity_code_is_mds(m, k, total);
    } else {
        lemma_mode_matrix_is_mds(options.matrix_mode, m, k, total);
    }
}

/// The encoding matrix of every matrix mode that builds one loses nothing.
pub proof fn lemma_mode_matrix_is_mds(mode: MatrixMode, m: Seq<Seq<u8>>, k: nat, total: nat)
    requires
        matrix_for_mode(mode, m, k, total),
        0 < k <= total <= 256,
    ensures
        is_mds_code(m, k, total),
{
    match mode {
        MatrixMode::Vandermonde => lemma_vandermonde_code_is_mds(m, k, total),
        MatrixMode::Cauchy => lemma_cauchy_code_is_mds(m, k, total),
        _ => {},
    }
}

} // verus!
