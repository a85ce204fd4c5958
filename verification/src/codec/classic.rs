//! The classic codec over GF(2^8): the encoding matrices it can be built
//! with, encoding, verification and reconstruction.
use vstd::prelude::*;

use crate::codec::{CodecFamily, CodecOptions, MatrixMode};
use crate::codec::cauchy::is_xor_parity_code;
use crate::codec::reconstruct::{first_indices, lemma_vandermonde_rows_nonsingular, rows_at};
use crate::codec::jerasure::{
    is_jerasure_code, jerasure_entry, jerasure_start, lemma_add_col_independent, lemma_pivot_nonzero, lemma_prod_add_col,
    lemma_prod_identity, lemma_prod_same_col, lemma_prod_scale_col, parity_scaled, top_right_inverse, lemma_jerasure_start_independent, lemma_scale_col_below_independent,
    lemma_scale_col_independent, lemma_scale_row_independent, lemma_swap_rows_independent, lemma_zero_column_dependent,
    lemma_zero_entry_dependent, rows_independent,
};
use crate::codec::reed_solomon::{ReedSolomon, recommended_capacity_spec, shard_views};
use crate::errors::Error;
use crate::galois_8::{
    gf_div, gf_mul, gf_pow, lemma_add_associative, lemma_add_group, lemma_div_mul, lemma_mul_commutative,
    lemma_mul_identity,
};
use crate::matrix::{
    Matrix, id_entry, identity_spec, is_inverse, is_matrix, lemma_distinct_sum_nonzero, lemma_xsum_ext, mat_mul, prod_entry, singular, sub_matrix_spec,
    vandermonde_spec, xsum,
};

verus! {

/// The first `k` rows of `m` are the rows of the identity: the data shards
/// pass through the code unchanged.
pub open spec fn is_systematic(m: Seq<Seq<u8>>, k: nat) -> bool {
    forall|r: int, c: int| 0 <= r < k && 0 <= c < k ==> #[trigger] m[r][c] == id_entry(r, c)
}

/// The Vandermonde encoding matrix: the `total` by `data` Vandermonde matrix
/// times the inverse of its top square, so that its top rows are the identity.
pub open spec fn is_vandermonde_code(m: Seq<Seq<u8>>, data: nat, total: nat) -> bool {
    exists|inv: Seq<Seq<u8>>|
        is_matrix(inv, data as int, data as int)
        && #[trigger] is_inverse(inv, sub_matrix_spec(vandermonde_spec(total, data), 0, 0, data as int, data as int), data)
        && m == mat_mul(vandermonde_spec(total, data), inv, data, data)
}

/// Entry `(r, c)` of the Cauchy encoding matrix: the identity above, and
/// `1 / (r + c)` below.
pub open spec fn cauchy_entry(data: int, r: int, c: int) -> u8 {
    if r < data {
        id_entry(r, c)
    } else {
        gf_div(1, ((r as u8) ^ (c as u8)) as u8)
    }
}

/// `m` is the Cauchy encoding matrix of `data` data shards, over its first
/// `total` rows.
pub open spec fn is_cauchy_code(m: Seq<Seq<u8>>, data: nat, total: nat) -> bool {
    forall|i: int, j: int| 0 <= i < total && 0 <= j < data ==> #[trigger] m[i][j] == cauchy_entry(data as int, i, j)
}

/// `m` is a code that loses nothing: any `data` distinct rows among its first
/// `total` form a non-singular matrix, so any `data` shards give back the data.
pub open spec fn is_mds_code(m: Seq<Seq<u8>>, data: nat, total: nat) -> bool {
    rows_independent(m, data, total)
}

/// Entry `(r, c)` of the encoding matrix built from a user matrix: the identity
/// above, and row `r - data` of the user matrix below.
pub open spec fn custom_entry(custom: Seq<Vec<u8>>, data: int, r: int, c: int) -> u8 {
    if r < data {
        id_entry(r, c)
    } else {
        custom[r - data]@[c]
    }
}

/// What `build_custom_matrix` reports on a user matrix, or `None` when it
/// accepts it: it needs a row per parity shard, each with an entry per data shard.
pub open spec fn custom_matrix_error(custom: Seq<Vec<u8>>, data: int, parity: int) -> Option<Error> {
    if custom.len() < parity {
        Some(Error::InvalidCustomMatrix)
    } else if exists|o: int| 0 <= o < parity && #[trigger] custom[o]@.len() < data {
        Some(Error::InvalidCustomMatrix)
    } else {
        None
    }
}

impl ReedSolomon {
    /// The Vandermonde encoding matrix: the `total_shards` by `data_shards`
    /// Vandermonde matrix times the inverse of its top square.
    pub(crate) fn build_matrix(data_shards: usize, total_shards: usize) -> (r: Result<Matrix, Error>)
        requires
            0 < data_shards <= total_shards <= 256,
        ensures
            r matches Ok(m) ==> m.wf() && m.rows() == total_shards && m.cols() == data_shards
                && is_vandermonde_code(m@, data_shards as nat, total_shards as nat)
                && is_systematic(m@, data_shards as nat),
            r is Ok,
    {
        let vandermonde = Matrix::vandermonde(total_shards, data_shards);
        let top = vandermonde.sub_matrix(0, 0, data_shards, data_shards);
        let top_inverted = match top.invert() {
            Ok(m) => m,
            Err(_) => {
                proof {
                    lemma_vandermonde_top_nonsingular(data_shards as nat, total_shards as nat);
                }
                return Err(Error::InvalidCustomMatrix);
            },
        };
        let product = match vandermonde.multiply(&top_inverted) {
            Ok(m) => m,
            Err(_) => return Err(Error::InvalidCustomMatrix),
        };
        proof {
            let k = data_shards as nat;
            let v = vandermonde@;
            let inv = top_inverted@;
            top_inverted.lemma_view();
            assert(is_vandermonde_code(product@, k, total_shards as nat)) by {
                assert(is_inverse(inv, sub_matrix_spec(vandermonde_spec(total_shards as nat, k), 0, 0, k as int, k as int), k));
            }
            assert forall|r: int, c: int| 0 <= r < k && 0 <= c < k implies #[trigger] product@[r][c] == id_entry(r, c) by {
                assert(prod_entry(top@, inv, k, r, c) == id_entry(r, c));
                lemma_xsum_ext(k, |l: int| gf_mul(top@[r][l], inv[l][c]), |l: int| gf_mul(v[r][l], inv[l][c]));
            }
        }
        Ok(product)
    }

    /// The Cauchy encoding matrix: the identity above, `1 / (r + c)` below.
    pub(crate) fn build_cauchy_matrix(data_shards: usize, total_shards: usize) -> (r: Result<Matrix, Error>)
        requires
            0 < data_shards <= total_shards <= 256,
        ensures
            r matches Ok(m) && m.wf() && m.rows() == total_shards && m.cols() == data_shards
                && forall|i: int, j: int| 0 <= i < total_shards && 0 <= j < data_shards
                    ==> #[trigger] m@[i][j] == cauchy_entry(data_shards as int, i, j),
    {
        let mut result = Matrix::new(total_shards, data_shards);
        let mut r: usize = 0;
        while r < total_shards
            invariant
                0 < data_shards <= total_shards <= 256,
                result.wf(),
                result.rows() == total_shards,
                result.cols() == data_shards,
                r <= total_shards,
                forall|i: int, j: int| 0 <= i < total_shards && 0 <= j < data_shards ==> #[trigger] result@[i][j] == if i < r {
                    cauchy_entry(data_shards as int, i, j)
                } else {
                    0u8
                },
            decreases total_shards - r,
        {
            if r < data_shards {
                let ghost before = result@;
                proof { result.lemma_view(); }
                result.set(r, r, crate::galois_8::Field::one());
                assert forall|i: int, j: int| 0 <= i < total_shards && 0 <= j < data_shards implies #[trigger] result@[i][j] == if i < r + 1 {
                    cauchy_entry(data_shards as int, i, j)
                } else {
                    0u8
                } by {
                    assert(before[i][j] == if i < r {
                        cauchy_entry(data_shards as int, i, j)
                    } else {
                        0u8
                    });
                }
            } else {
                let mut c: usize = 0;
                while c < data_shards
                    invariant
                        0 < data_shards <= r < total_shards <= 256,
                        result.wf(),
                        result.rows() == total_shards,
                        result.cols() == data_shards,
                        c <= data_shards,
                        forall|i: int, j: int| 0 <= i < total_shards && 0 <= j < data_shards ==> #[trigger] result@[i][j] == if i < r || (i == r && j < c) {
                            cauchy_entry(data_shards as int, i, j)
                        } else {
                            0u8
                        },
                    decreases data_shards - c,
                {
                    let denominator = crate::galois_8::Field::add(
                        crate::galois_8::Field::nth(r),
                        crate::galois_8::Field::nth(c),
                    );
                    proof {
                        lemma_distinct_sum_nonzero(r as u8, c as u8);
                    }
                    if denominator == crate::galois_8::Field::zero() {
                        return Err(Error::InvalidCustomMatrix);
                    }
                    let ghost before = result@;
                proof { result.lemma_view(); }
                    result.set(r, c, crate::galois_8::Field::div(crate::galois_8::Field::one(), denominator));
                    assert forall|i: int, j: int| 0 <= i < total_shards && 0 <= j < data_shards implies #[trigger] result@[i][j] == if i < r || (i == r && j < c + 1) {
                        cauchy_entry(data_shards as int, i, j)
                    } else {
                        0u8
                    } by {
                        assert(before[i][j] == if i < r || (i == r && j < c) {
                            cauchy_entry(data_shards as int, i, j)
                        } else {
                            0u8
                        });
                    }
                    c = c + 1;
                }
            }
            r = r + 1;
        }
        Ok(result)
    }

    /// The encoding matrix with the identity above and the first
    /// `total_shards - data_shards` rows of `custom_matrix`, each cut to
    /// `data_shards` entries, below.
    pub(crate) fn build_custom_matrix(data_shards: usize, total_shards: usize, custom_matrix: &[Vec<u8>]) -> (r: Result<Matrix, Error>)
        requires
            0 < data_shards <= total_shards,
        ensures
            match custom_matrix_error(custom_matrix@, data_shards as int, total_shards - data_shards) {
                Some(e) => r == Err::<Matrix, Error>(e),
                None => r matches Ok(m) && m.wf() && m.rows() == total_shards && m.cols() == data_shards
                    && forall|i: int, j: int| 0 <= i < total_shards && 0 <= j < data_shards
                        ==> #[trigger] m@[i][j] == custom_entry(custom_matrix@, data_shards as int, i, j),
            },
    {
        let parity_shards = total_shards - data_shards;
        if custom_matrix.len() < parity_shards {
            return Err(Error::InvalidCustomMatrix);
        }
        let mut o: usize = 0;
        while o < parity_shards
            invariant
                parity_shards == total_shards - data_shards,
                parity_shards <= custom_matrix@.len(),
                o <= parity_shards,
                forall|t: int| 0 <= t < o ==> #[trigger] custom_matrix@[t]@.len() >= data_shards,
            decreases parity_shards - o,
        {
            if custom_matrix[o].len() < data_shards {
                assert(custom_matrix@[o as int]@.len() < data_shards);
                return Err(Error::InvalidCustomMatrix);
            }
            o = o + 1;
        }
        let mut result = Matrix::new(total_shards, data_shards);
        let mut row: usize = 0;
        while row < data_shards
            invariant
                0 < data_shards <= total_shards,
                result.wf(),
                result.rows() == total_shards,
                result.cols() == data_shards,
                row <= data_shards,
                forall|i: int, j: int| 0 <= i < total_shards && 0 <= j < data_shards ==> #[trigger] result@[i][j] == if i < row {
                    id_entry(i, j)
                } else {
                    0u8
                },
            decreases data_shards - row,
        {
            let ghost before = result@;
                proof { result.lemma_view(); }
            result.set(row, row, 1);
            assert forall|i: int, j: int| 0 <= i < total_shards && 0 <= j < data_shards implies #[trigger] result@[i][j] == if i < row + 1 {
                id_entry(i, j)
            } else {
                0u8
            } by {
                assert(before[i][j] == if i < row {
                    id_entry(i, j)
                } else {
                    0u8
                });
            }
            row = row + 1;
        }
        let mut offset: usize = 0;
        while offset < parity_shards
            invariant
                0 < data_shards <= total_shards,
                parity_shards == total_shards - data_shards,
                parity_shards <= custom_matrix@.len(),
                forall|t: int| 0 <= t < parity_shards ==> #[trigger] custom_matrix@[t]@.len() >= data_shards,
                result.wf(),
                result.rows() == total_shards,
                result.cols() == data_shards,
                offset <= parity_shards,
                forall|i: int, j: int| 0 <= i < total_shards && 0 <= j < data_shards ==> #[trigger] result@[i][j] == if i < data_shards + offset {
                    custom_entry(custom_matrix@, data_shards as int, i, j)
                } else {
                    0u8
                },
            decreases parity_shards - offset,
        {
            let mut col: usize = 0;
            while col < data_shards
                invariant
                    0 < data_shards <= total_shards,
                    parity_shards == total_shards - data_shards,
                    parity_shards <= custom_matrix@.len(),
                    offset < parity_shards,
                    custom_matrix@[offset as int]@.len() >= data_shards,
                    result.wf(),
                    result.rows() == total_shards,
                    result.cols() == data_shards,
                    col <= data_shards,
                    forall|i: int, j: int| 0 <= i < total_shards && 0 <= j < data_shards ==> #[trigger] result@[i][j] == if i < data_shards + offset || (i == data_shards + offset && j < col) {
                        custom_entry(custom_matrix@, data_shards as int, i, j)
                    } else {
                        0u8
                    },
                decreases data_shards - col,
            {
                let ghost before = result@;
                proof { result.lemma_view(); }
                result.set(data_shards + offset, col, custom_matrix[offset][col]);
                assert forall|i: int, j: int| 0 <= i < total_shards && 0 <= j < data_shards implies #[trigger] result@[i][j] == if i < data_shards + offset || (i == data_shards + offset && j < col + 1) {
                    custom_entry(custom_matrix@, data_shards as int, i, j)
                } else {
                    0u8
                } by {
                    assert(before[i][j] == if i < data_shards + offset || (i == data_shards + offset && j < col) {
                        custom_entry(custom_matrix@, data_shards as int, i, j)
                    } else {
                        0u8
                    });
                }
                col = col + 1;
            }
            offset = offset + 1;
        }
        assert(custom_matrix_error(custom_matrix@, data_shards as int, total_shards - data_shards) is None);
        assert forall|i: int, j: int| 0 <= i < total_shards && 0 <= j < data_shards implies #[trigger] result@[i][j] == custom_entry(custom_matrix@, data_shards as int, i, j) by {
            assert(i < data_shards + offset);
        }
        Ok(result)
    }
}

/// The shape of the encoding matrix that a matrix mode promises.
pub open spec fn matrix_for_mode(mode: MatrixMode, m: Seq<Seq<u8>>, data: nat, total: nat) -> bool {
    match mode {
        MatrixMode::Vandermonde => is_vandermonde_code(m, data, total),
        MatrixMode::Cauchy => is_cauchy_code(m, data, total),
        MatrixMode::JerasureLike => is_jerasure_code(m, data, total) && jerasure_normal_form(m, data, total)
            && is_mds_code(m, data, total),
        MatrixMode::Custom => false,
    }
}

/// The shape of the encoding matrix that the options promise: the sum of the
/// data shards when a single parity shard is asked to be fast, the shape of
/// the matrix mode otherwise.
pub open spec fn matrix_for_options(options: CodecOptions, m: Seq<Seq<u8>>, data: nat, total: nat) -> bool {
    if options.fast_one_parity && total == data + 1 {
        is_xor_parity_code(m, data, total)
    } else {
        matrix_for_mode(options.matrix_mode, m, data, total)
    }
}

/// The normal form of a Jerasure-style matrix: the first parity row is all
/// ones, and so is the first column of the other parity rows.
pub open spec fn jerasure_normal_form(m: Seq<Seq<u8>>, data: nat, total: nat) -> bool {
    &&& forall|c: int| 0 <= c < data ==> #[trigger] m[data as int][c] == 1
    &&& forall|r: int| data < r < total ==> #[trigger] m[r][0] == 1
}

/// The top square of the `total` by `data` Vandermonde matrix is not
/// singular: its rows are those at the distinct points `0..data`.
pub proof fn lemma_vandermonde_top_nonsingular(data: nat, total: nat)
    requires
        data <= total <= 256,
    ensures
        !singular(sub_matrix_spec(vandermonde_spec(total, data), 0, 0, data as int, data as int), data),
{
    let vm = vandermonde_spec(total, data);
    let idx = first_indices(data);
    lemma_vandermonde_rows_nonsingular(total, data, idx);
    assert(rows_at(vm, idx) =~= sub_matrix_spec(vm, 0, 0, data as int, data as int)) by {
        assert forall|i: int| 0 <= i < data implies #[trigger] rows_at(vm, idx)[i] =~= sub_matrix_spec(vm, 0, 0, data as int, data as int)[i] by {}
    }
}

impl ReedSolomon {
    /// The Jerasure-style encoding matrix: a Vandermonde matrix whose first and
    /// last rows are set to unit rows, reduced by column operations until its
    /// top square is the identity, then normalized so that the first parity
    /// row and the first column of the other parity rows are all ones. Every
    /// step keeps any `data_shards` rows independent, so it always succeeds and
    /// the matrix is a maximum distance separable code.
    pub(crate) fn build_jerasure_like_matrix(data_shards: usize, total_shards: usize) -> (r: Result<Matrix, Error>)
        requires
            0 < data_shards < total_shards <= 256,
        ensures
            r is Ok,
            r matches Ok(m) ==> m.wf() && m.rows() == total_shards && m.cols() == data_shards
                && is_systematic(m@, data_shards as nat)
                && is_jerasure_code(m@, data_shards as nat, total_shards as nat)
                && jerasure_normal_form(m@, data_shards as nat, total_shards as nat)
                && is_mds_code(m@, data_shards as nat, total_shards as nat),
    {
        let ghost k = data_shards as nat;
        let ghost total = total_shards as nat;
        let mut vm = Matrix::vandermonde(total_shards, data_shards);
        proof {
            vm.lemma_view();
        }
        vm.set(0, 0, 1);
        let mut i: usize = 1;
        while i < data_shards
            invariant
                vm.wf(),
                vm.rows() == total_shards,
                vm.cols() == data_shards,
                0 < data_shards < total_shards <= 256,
                1 <= i <= data_shards,
                forall|q: int, c: int| 0 <= q < total_shards && 0 <= c < data_shards ==> #[trigger] vm@[q][c] == if q == 0 && c < i {
                    id_entry(0, c)
                } else {
                    gf_pow(q as u8, c as nat)
                },
            decreases data_shards - i,
        {
            let ghost before = vm@;
            proof {
                vm.lemma_view();
            }
            vm.set(0, i, 0);
            proof {
                assert forall|q: int, c: int| 0 <= q < total_shards && 0 <= c < data_shards implies #[trigger] vm@[q][c] == if q == 0 && c < i + 1 {
                    id_entry(0, c)
                } else {
                    gf_pow(q as u8, c as nat)
                } by {
                    if q != 0 || c != i {
                        assert(vm@[q][c] == before[q][c]);
                    }
                }
            }
            i = i + 1;
        }
        let mut i: usize = 0;
        while i < data_shards - 1
            invariant
                vm.wf(),
                vm.rows() == total_shards,
                vm.cols() == data_shards,
                0 < data_shards < total_shards <= 256,
                i <= data_shards - 1,
                forall|q: int, c: int| 0 <= q < total_shards && 0 <= c < data_shards ==> #[trigger] vm@[q][c] == if q == 0 {
                    id_entry(0, c)
                } else if q == total_shards - 1 && c < i {
                    id_entry(data_shards - 1, c)
                } else {
                    gf_pow(q as u8, c as nat)
                },
            decreases data_shards - 1 - i,
        {
            let ghost before = vm@;
            proof {
                vm.lemma_view();
            }
            vm.set(total_shards - 1, i, 0);
            proof {
                assert forall|q: int, c: int| 0 <= q < total_shards && 0 <= c < data_shards implies #[trigger] vm@[q][c] == if q == 0 {
                    id_entry(0, c)
                } else if q == total_shards - 1 && c < i + 1 {
                    id_entry(data_shards - 1, c)
                } else {
                    gf_pow(q as u8, c as nat)
                } by {
                    if q != total_shards - 1 || c != i {
                        assert(vm@[q][c] == before[q][c]);
                    }
                }
            }
            i = i + 1;
        }
        let ghost before = vm@;
        proof {
            vm.lemma_view();
        }
        vm.set(total_shards - 1, data_shards - 1, 1);
        proof {
            vm.lemma_view();
            lemma_jerasure_start_independent(total, k);
            assert(vm@ =~= jerasure_start(total, k)) by {
                assert forall|q: int| 0 <= q < total implies #[trigger] vm@[q] =~= jerasure_start(total, k)[q] by {
                    assert forall|c: int| 0 <= c < k implies #[trigger] vm@[q][c] == jerasure_start(total, k)[q][c] by {
                        if q != total_shards - 1 || c != data_shards - 1 {
                            assert(vm@[q][c] == before[q][c]);
                        }
                    }
                }
            }
        }
        // `t` records the column operations: `vm` stays `a * t`.
        let ghost a = jerasure_start(total, k);
        let ghost mut t = identity_spec(k);
        proof {
            assert forall|q: int, c: int| 0 <= q < total && 0 <= c < k implies #[trigger] vm@[q][c] == prod_entry(a, t, k, q, c) by {
                lemma_prod_identity(a, k, q, c);
            }
        }
        let mut i: usize = 0;
        while i < data_shards
            invariant
                vm.wf(),
                vm.rows() == total_shards,
                vm.cols() == data_shards,
                0 < data_shards < total_shards <= 256,
                k == data_shards,
                total == total_shards,
                i <= data_shards,
                rows_independent(vm@, k, total),
                forall|q: int, c: int| 0 <= q < i && 0 <= c < data_shards ==> #[trigger] vm@[q][c] == id_entry(q, c),
                a == jerasure_start(total, k),
                is_matrix(t, k as int, k as int),
                forall|q: int, c: int| 0 <= q < total && 0 <= c < k ==> #[trigger] vm@[q][c] == prod_entry(a, t, k, q, c),
                forall|l: int, j: int| i <= l < k && i <= j < k ==> #[trigger] t[l][j] == id_entry(l, j),
            decreases data_shards - i,
        {
            proof {
                assert forall|q: int| 0 <= q < i implies #[trigger] prod_entry(a, t, k, q, i as int) == 0 by {
                    assert(vm@[q][i as int] == id_entry(q, i as int));
                }
                assert(t[i as int][i as int] == id_entry(i as int, i as int));
                assert forall|l: int| i < l < k implies #[trigger] t[l][i as int] == 0 by {
                    assert(t[l][i as int] == id_entry(l, i as int));
                }
                lemma_pivot_nonzero(t, k, total, i as int);
                assert(vm@[i as int][i as int] != 0);
            }
            let mut r: usize = i;
            while r < total_shards && vm.get(r, i) == 0
                invariant
                    vm.wf(),
                    vm.rows() == total_shards,
                    vm.cols() == data_shards,
                    i < data_shards,
                    i <= r <= total_shards,
                    forall|q: int, c: int| 0 <= q < i && 0 <= c < data_shards ==> #[trigger] vm@[q][c] == id_entry(q, c),
                    forall|q: int| i <= q < r ==> #[trigger] vm@[q][i as int] == 0,
                    vm@[i as int][i as int] != 0,
                decreases total_shards - r,
            {
                r = r + 1;
            }
            assert(r == i) by {
                if r > i {
                    assert(vm@[i as int][i as int] == 0);
                }
            }
            if r == total_shards {
                proof {
                    vm.lemma_view();
                    assert forall|q: int| 0 <= q < total implies #[trigger] vm@[q][i as int] == 0 by {
                        if q < i {
                            assert(vm@[q][i as int] == id_entry(q, i as int));
                        }
                    }
                    lemma_zero_column_dependent(vm@, k, total, i as int);
                }
                return Err(Error::InvalidCustomMatrix);
            }
            if r != i {
                let ghost before = vm@;
                proof {
                    vm.lemma_view();
                    lemma_swap_rows_independent(before, k, total, r, i);
                }
                vm.swap_rows(r, i);
                proof {
                    vm.lemma_view();
                    assert forall|q: int, c: int| 0 <= q < i && 0 <= c < data_shards implies #[trigger] vm@[q][c] == id_entry(q, c) by {
                        assert(before[q][c] == id_entry(q, c));
                    }
                }
            } else if vm.get(i, i) == 0 {
                return Err(Error::InvalidCustomMatrix);
            }
            let diagonal = vm.get(i, i);
            if diagonal == 0 {
                return Err(Error::InvalidCustomMatrix);
            }
            let scale = if diagonal != 1 {
                crate::galois_8::div(1, diagonal)
            } else {
                1
            };
            if scale != 1 {
                let ghost before = vm@;
                proof {
                    vm.lemma_view();
                }
                vm.scale_col_rows(i, scale, 0, total_shards);
                proof {
                    vm.lemma_view();
                    let t2 = Seq::new(k, |l: int| Seq::new(k, |c: int| if c == i { gf_mul(t[l][c], scale) } else { t[l][c] }));
                    assert forall|q: int, c: int| 0 <= q < total && 0 <= c < k implies #[trigger] vm@[q][c] == prod_entry(a, t2, k, q, c) by {
                        assert(before[q][c] == prod_entry(a, t, k, q, c));
                        if c == i {
                            lemma_prod_scale_col(a, t, t2, k, c, scale, q);
                        } else {
                            lemma_prod_same_col(a, t, t2, k, c, q);
                        }
                    }
                    assert forall|l: int| i < l < k implies #[trigger] t2[l][i as int] == 0 by {
                        assert(t[l][i as int] == id_entry(l, i as int));
                        lemma_mul_identity(scale);
                    }
                    t = t2;
                    lemma_mul_identity(scale);
                    lemma_mul_commutative(diagonal, scale);
                    lemma_div_mul(1, diagonal, 0);
                    lemma_mul_identity(diagonal);
                    lemma_scale_col_independent(before, vm@, k, total, i as int, scale);
                    assert forall|q: int, c: int| 0 <= q < i && 0 <= c < data_shards implies #[trigger] vm@[q][c] == id_entry(q, c) by {
                        assert(before[q][c] == id_entry(q, c));
                    }
                    assert(vm@[i as int][i as int] == gf_mul(before[i as int][i as int], scale));
                    assert(vm@[i as int][i as int] == 1);
                }
            } else {
                proof {
                    if diagonal != 1 {
                        lemma_div_mul(1, diagonal, 0);
                        lemma_mul_identity(diagonal);
                    }
                    assert forall|l: int| i < l < k implies #[trigger] t[l][i as int] == 0 by {
                        assert(t[l][i as int] == id_entry(l, i as int));
                    }
                }
                assert(vm@[i as int][i as int] == 1);
            }
            let mut j: usize = 0;
            while j < data_shards
                invariant
                    vm.wf(),
                    vm.rows() == total_shards,
                    vm.cols() == data_shards,
                    0 < data_shards < total_shards <= 256,
                    k == data_shards,
                    total == total_shards,
                    i < data_shards,
                    j <= data_shards,
                    rows_independent(vm@, k, total),
                    vm@[i as int][i as int] == 1,
                    forall|q: int, c: int| 0 <= q < i && 0 <= c < data_shards ==> #[trigger] vm@[q][c] == id_entry(q, c),
                    forall|c: int| 0 <= c < j && c != i ==> #[trigger] vm@[i as int][c] == 0,
                    a == jerasure_start(total, k),
                    is_matrix(t, k as int, k as int),
                    forall|q: int, c: int| 0 <= q < total && 0 <= c < k ==> #[trigger] vm@[q][c] == prod_entry(a, t, k, q, c),
                    forall|l: int, c: int| i < l < k && i < c < k ==> #[trigger] t[l][c] == id_entry(l, c),
                    forall|l: int| i < l < k ==> #[trigger] t[l][i as int] == 0,
                decreases data_shards - j,
            {
                let value = vm.get(i, j);
                if j != i && value != 0 {
                    let ghost before = vm@;
                    proof {
                        vm.lemma_view();
                    }
                    vm.add_scaled_col(j, i, value);
                    proof {
                        vm.lemma_view();
                        let t3 = Seq::new(k, |l: int| Seq::new(k, |c: int| if c == j { t[l][c] ^ gf_mul(value, t[l][i as int]) } else { t[l][c] }));
                        assert forall|q: int, c: int| 0 <= q < total && 0 <= c < k implies #[trigger] vm@[q][c] == prod_entry(a, t3, k, q, c) by {
                            assert(before[q][c] == prod_entry(a, t, k, q, c));
                            assert(before[q][i as int] == prod_entry(a, t, k, q, i as int));
                            if c == j {
                                lemma_prod_add_col(a, t, t3, k, c, i as int, value, q);
                            } else {
                                lemma_prod_same_col(a, t, t3, k, c, q);
                            }
                        }
                        assert forall|l: int, c: int| i < l < k && i < c < k implies #[trigger] t3[l][c] == id_entry(l, c) by {
                            assert(t[l][c] == id_entry(l, c));
                            assert(t[l][i as int] == 0);
                            lemma_mul_identity(value);
                            lemma_add_group(t[l][c], 0u8);
                        }
                        assert forall|l: int| i < l < k implies #[trigger] t3[l][i as int] == 0 by {
                            assert(t[l][i as int] == 0);
                        }
                        t = t3;
                        lemma_add_col_independent(before, vm@, k, total, j as int, i as int, value);
                        lemma_mul_identity(value);
                        lemma_add_group(value, value);
                        assert forall|q: int, c: int| 0 <= q < i && 0 <= c < data_shards implies #[trigger] vm@[q][c] == id_entry(q, c) by {
                            assert(before[q][c] == id_entry(q, c));
                            assert(before[q][i as int] == 0);
                            lemma_add_group(before[q][c], 0u8);
                        }
                        assert forall|c: int| 0 <= c < j + 1 && c != i implies #[trigger] vm@[i as int][c] == 0 by {
                            assert(c < j ==> before[i as int][c] == 0);
                        }
                    }
                }
                j = j + 1;
            }
            proof {
                assert forall|q: int, c: int| 0 <= q < i + 1 && 0 <= c < data_shards implies #[trigger] vm@[q][c] == id_entry(q, c) by {
                    if q == i && c != i {
                        assert(vm@[i as int][c] == 0);
                    }
                }
            }
            i = i + 1;
        }
        proof {
            assert forall|q: int, c: int| 0 <= q < k && 0 <= c < k implies #[trigger] prod_entry(a, t, k, q, c) == id_entry(q, c) by {
                assert(vm@[q][c] == prod_entry(a, t, k, q, c));
            }
            assert(top_right_inverse(a, t, k));
        }
        let mut j: usize = 0;
        while j < data_shards
            invariant
                vm.wf(),
                vm.rows() == total_shards,
                vm.cols() == data_shards,
                0 < data_shards < total_shards <= 256,
                k == data_shards,
                total == total_shards,
                rows_independent(vm@, k, total),
                forall|q: int, c: int| 0 <= q < data_shards && 0 <= c < data_shards ==> #[trigger] vm@[q][c] == id_entry(q, c),
                j <= data_shards,
                forall|c: int| 0 <= c < j ==> #[trigger] vm@[data_shards as int][c] == 1,
                a == jerasure_start(total, k),
                top_right_inverse(a, t, k),
                forall|q: int, c: int| k <= q < total && 0 <= c < k ==> #[trigger] vm@[q][c] == if c < j {
                    parity_scaled(a, t, k, q, c)
                } else {
                    prod_entry(a, t, k, q, c)
                },
            decreases data_shards - j,
        {
            let value = vm.get(data_shards, j);
            if value == 0 {
                proof {
                    vm.lemma_view();
                    lemma_zero_entry_dependent(vm@, k, total, data_shards, j as int);
                }
                return Err(Error::InvalidCustomMatrix);
            }
            if value == 1 {
                proof {
                    lemma_mul_identity(1u8);
                    lemma_div_mul(1, 1, 1);
                    assert forall|q: int, c: int| k <= q < total && 0 <= c < k implies #[trigger] vm@[q][c] == if c < j + 1 {
                        parity_scaled(a, t, k, q, c)
                    } else {
                        prod_entry(a, t, k, q, c)
                    } by {
                        lemma_mul_identity(prod_entry(a, t, k, q, c));
                    }
                }
            }
            if value != 1 {
                let scale = crate::galois_8::div(1, value);
                let ghost before = vm@;
                proof {
                    vm.lemma_view();
                }
                vm.scale_col_rows(j, scale, data_shards, total_shards);
                proof {
                    vm.lemma_view();
                    assert forall|q: int, c: int| k <= q < total && 0 <= c < k implies #[trigger] vm@[q][c] == if c < j + 1 {
                        parity_scaled(a, t, k, q, c)
                    } else {
                        prod_entry(a, t, k, q, c)
                    } by {
                        assert(before[q][c] == if c < j { parity_scaled(a, t, k, q, c) } else { prod_entry(a, t, k, q, c) });
                    }
                    lemma_div_mul(1, value, 0);
                    lemma_mul_commutative(value, scale);
                    lemma_mul_identity(value);
                    lemma_scale_col_below_independent(before, vm@, k, total, j as int, scale, data_shards as int);
                    assert forall|q: int, c: int| 0 <= q < data_shards && 0 <= c < data_shards implies #[trigger] vm@[q][c] == id_entry(q, c) by {
                        assert(before[q][c] == id_entry(q, c));
                    }
                    assert(vm@[data_shards as int][j as int] == gf_mul(before[data_shards as int][j as int], scale));
                    assert forall|c: int| 0 <= c < j + 1 implies #[trigger] vm@[data_shards as int][c] == 1 by {
                        if c < j {
                            assert(before[data_shards as int][c] == 1);
                        }
                    }
                }
            }
            j = j + 1;
        }
        let mut row: usize = data_shards + 1;
        while row < total_shards
            invariant
                vm.wf(),
                vm.rows() == total_shards,
                vm.cols() == data_shards,
                0 < data_shards < total_shards <= 256,
                k == data_shards,
                total == total_shards,
                rows_independent(vm@, k, total),
                data_shards < row <= total_shards,
                forall|q: int, c: int| 0 <= q < data_shards && 0 <= c < data_shards ==> #[trigger] vm@[q][c] == id_entry(q, c),
                forall|c: int| 0 <= c < data_shards ==> #[trigger] vm@[data_shards as int][c] == 1,
                forall|q: int| data_shards < q < row ==> #[trigger] vm@[q][0] == 1,
                a == jerasure_start(total, k),
                top_right_inverse(a, t, k),
                forall|q: int, c: int| k < q < total && 0 <= c < k ==> #[trigger] vm@[q][c] == if q < row {
                    gf_mul(gf_div(1, parity_scaled(a, t, k, q, 0)), parity_scaled(a, t, k, q, c))
                } else {
                    parity_scaled(a, t, k, q, c)
                },
            decreases total_shards - row,
        {
            let value = vm.get(row, 0);
            if value == 0 {
                proof {
                    vm.lemma_view();
                    lemma_zero_entry_dependent(vm@, k, total, row, 0);
                }
                return Err(Error::InvalidCustomMatrix);
            }
            if value == 1 {
                proof {
                    lemma_mul_identity(1u8);
                    lemma_div_mul(1, 1, 1);
                    assert forall|q: int, c: int| k < q < total && 0 <= c < k implies #[trigger] vm@[q][c] == if q < row + 1 {
                        gf_mul(gf_div(1, parity_scaled(a, t, k, q, 0)), parity_scaled(a, t, k, q, c))
                    } else {
                        parity_scaled(a, t, k, q, c)
                    } by {
                        lemma_mul_identity(parity_scaled(a, t, k, q, c));
                    }
                }
            }
            if value != 1 {
                let scale = crate::galois_8::div(1, value);
                let ghost before = vm@;
                proof {
                    vm.lemma_view();
                }
                vm.scale_row(row, scale);
                proof {
                    vm.lemma_view();
                    assert forall|q: int, c: int| k < q < total && 0 <= c < k implies #[trigger] vm@[q][c] == if q < row + 1 {
                        gf_mul(gf_div(1, parity_scaled(a, t, k, q, 0)), parity_scaled(a, t, k, q, c))
                    } else {
                        parity_scaled(a, t, k, q, c)
                    } by {
                        assert(before[q][c] == if q < row {
                            gf_mul(gf_div(1, parity_scaled(a, t, k, q, 0)), parity_scaled(a, t, k, q, c))
                        } else {
                            parity_scaled(a, t, k, q, c)
                        });
                        assert(before[q][0] == if q < row {
                            gf_mul(gf_div(1, parity_scaled(a, t, k, q, 0)), parity_scaled(a, t, k, q, 0))
                        } else {
                            parity_scaled(a, t, k, q, 0)
                        });
                    }
                    lemma_div_mul(1, value, 0);
                    lemma_mul_commutative(value, scale);
                    lemma_mul_identity(value);
                    lemma_scale_row_independent(before, k, total, row as int, scale);
                    assert forall|q: int, c: int| 0 <= q < data_shards && 0 <= c < data_shards implies #[trigger] vm@[q][c] == id_entry(q, c) by {
                        assert(before[q][c] == id_entry(q, c));
                    }
                    assert forall|c: int| 0 <= c < data_shards implies #[trigger] vm@[data_shards as int][c] == 1 by {
                        assert(before[data_shards as int][c] == 1);
                    }
                    assert forall|q: int| data_shards < q < row + 1 implies #[trigger] vm@[q][0] == 1 by {
                        if q < row {
                            assert(before[q][0] == 1);
                        }
                    }
                }
            }
            row = row + 1;
        }
        proof {
            assert forall|q: int, c: int| 0 <= q < total && 0 <= c < k implies #[trigger] vm@[q][c] == jerasure_entry(a, t, k, q, c) by {
                if q < k {
                    assert(vm@[q][c] == id_entry(q, c));
                } else if q == k {
                    assert(vm@[q][c] == 1);
                }
            }
            assert(top_right_inverse(jerasure_start(total, k), t, k));
        }
        Ok(vm)
    }

    /// The encoding matrix with one parity shard that is the sum of the data
    /// shards: the identity on top of a row of ones.
    pub(crate) fn build_xor_parity_matrix(data_shards: usize) -> (m: Matrix)
        requires
            0 < data_shards < 256,
        ensures
            m.wf(),
            m.rows() == data_shards + 1,
            m.cols() == data_shards,
            is_xor_parity_code(m@, data_shards as nat, (data_shards + 1) as nat),
    {
        let total = data_shards + 1;
        let mut m = Matrix::new(total, data_shards);
        let mut c: usize = 0;
        while c < data_shards
            invariant
                m.wf(),
                m.rows() == total,
                m.cols() == data_shards,
                total == data_shards + 1,
                c <= data_shards,
                forall|r: int, l: int| 0 <= r < total && 0 <= l < data_shards ==> #[trigger] m@[r][l] == if l < c && (r == l || r == data_shards) {
                    1u8
                } else {
                    0u8
                },
            decreases data_shards - c,
        {
            let ghost before = m@;
            proof {
                m.lemma_view();
            }
            m.set(c, c, 1);
            let ghost mid = m@;
            proof {
                m.lemma_view();
            }
            m.set(data_shards, c, 1);
            proof {
                m.lemma_view();
                assert forall|r: int, l: int| 0 <= r < total && 0 <= l < data_shards implies #[trigger] m@[r][l] == if l < c + 1 && (r == l || r == data_shards) {
                    1u8
                } else {
                    0u8
                } by {
                    if !(l == c && (r == c || r == data_shards)) {
                        assert(m@[r][l] == mid[r][l]);
                        assert(mid[r][l] == before[r][l]);
                    }
                }
            }
            c = c + 1;
        }
        m
    }

    /// The encoding matrix for the options: only the classic family has one,
    /// and the custom mode needs a user matrix; a single parity shard asked
    /// to be fast is the sum of the data shards.
    pub(crate) fn build_matrix_with_options(data_shards: usize, total_shards: usize, options: CodecOptions) -> (r: Result<Matrix, Error>)
        requires
            0 < data_shards < total_shards <= 256,
        ensures
            options.codec_family != CodecFamily::Classic ==> r == Err::<Matrix, Error>(Error::UnsupportedCodecFamily),
            options.codec_family == CodecFamily::Classic ==> {
                &&& r matches Ok(m) ==> m.wf() && m.rows() == total_shards && m.cols() == data_shards
                    && is_systematic(m@, data_shards as nat)
                    && matrix_for_options(options, m@, data_shards as nat, total_shards as nat)
                &&& r is Err ==> r == Err::<Matrix, Error>(Error::InvalidCustomMatrix)
                &&& r is Err <==> options.matrix_mode == MatrixMode::Custom
            },
    {
        if options.codec_family != CodecFamily::Classic {
            return Err(Error::UnsupportedCodecFamily);
        }
        if options.matrix_mode != MatrixMode::Custom && options.fast_one_parity && total_shards - data_shards == 1 {
            let m = Self::build_xor_parity_matrix(data_shards);
            proof {
                assert forall|i: int, c: int| 0 <= i < data_shards && 0 <= c < data_shards implies #[trigger] m@[i][c] == id_entry(i, c) by {}
            }
            return Ok(m);
        }
        match options.matrix_mode {
            MatrixMode::Vandermonde => Self::build_matrix(data_shards, total_shards),
            MatrixMode::Cauchy => {
                let r = Self::build_cauchy_matrix(data_shards, total_shards);
                proof {
                    if r is Ok {
                        let m = r->Ok_0;
                        assert forall|i: int, c: int| 0 <= i < data_shards && 0 <= c < data_shards implies #[trigger] m@[i][c] == id_entry(i, c) by {
                            assert(m@[i][c] == cauchy_entry(data_shards as int, i, c));
                        }
                    }
                }
                r
            },
            MatrixMode::JerasureLike => Self::build_jerasure_like_matrix(data_shards, total_shards),
            MatrixMode::Custom => Err(Error::InvalidCustomMatrix),
        }
    }
}

/// Byte `p` of the code row `row` applied to the first `k` shards: the sum
/// over `c < k` of `row[c] * shards[c][p]`.
pub open spec fn code_byte(row: Seq<u8>, shards: Seq<Seq<u8>>, k: nat, p: int) -> u8 {
    xsum(k, |c: int| gf_mul(row[c], shards[c][p]))
}

/// What the shard checks report, or `None` when they pass: exactly `total`
/// shards, the first non-empty, all of its length.
pub open spec fn shards_error(shards: Seq<Seq<u8>>, total: int) -> Option<Error> {
    if shards.len() < total {
        Some(Error::TooFewShards)
    } else if shards.len() > total {
        Some(Error::TooManyShards)
    } else if shards[0].len() == 0 {
        Some(Error::EmptyShard)
    } else if exists|i: int| 0 <= i < shards.len() && #[trigger] shards[i].len() != shards[0].len() {
        Some(Error::IncorrectShardSize)
    } else {
        None
    }
}

/// Every shard from `k` to `total` is its row of `m` applied to the first `k`
/// shards.
pub open spec fn is_encoded(m: Seq<Seq<u8>>, shards: Seq<Seq<u8>>, k: nat, total: nat) -> bool {
    forall|r: int, p: int| k <= r < total && 0 <= p < shards[r].len() ==> #[trigger] shards[r][p] == code_byte(m[r], shards, k, p)
}

/// The first shard gives the length, and all shards have it.
pub open spec fn uniform(shards: Seq<Seq<u8>>, len: nat) -> bool {
    forall|i: int| 0 <= i < shards.len() ==> #[trigger] shards[i].len() == len
}

/// One output shard: `row` applied to the first `k` shards, `len` bytes each.
pub(crate) fn code_row(row: &[u8], shards: &[Vec<u8>], k: usize, len: usize) -> (out: Vec<u8>)
    requires
        1 <= k <= row@.len(),
        k <= shards@.len(),
        forall|c: int| 0 <= c < k ==> #[trigger] shards@[c]@.len() == len,
    ensures
        out@.len() == len,
        forall|p: int| 0 <= p < len ==> #[trigger] out@[p] == code_byte(row@, shard_views(shards@), k as nat, p),
{
    let ghost views = shard_views(shards@);
    let mut out: Vec<u8> = vec![0u8; len];
    crate::galois_8::mul_slice(row[0], shards[0].as_slice(), out.as_mut_slice());
    proof {
        assert forall|p: int| 0 <= p < len implies #[trigger] out@[p] == xsum(1, |t: int| gf_mul(row@[t], views[t][p])) by {
            let f = |t: int| gf_mul(row@[t], views[t][p]);
            assert(views[0] == shards@[0]@);
            assert(out@[p] == f(0));
            assert(xsum(0, f) == 0u8);
            assert(xsum(1, f) == xsum(0, f) ^ f(0));
            lemma_add_group(0u8, f(0));
            lemma_add_group(f(0), 0u8);
        }
    }
    let mut c: usize = 1;
    while c < k
        invariant
            1 <= c <= k,
            k <= row@.len(),
            k <= shards@.len(),
            views == shard_views(shards@),
            forall|t: int| 0 <= t < k ==> #[trigger] shards@[t]@.len() == len,
            out@.len() == len,
            forall|p: int| 0 <= p < len ==> #[trigger] out@[p] == xsum(c as nat, |t: int| gf_mul(row@[t], views[t][p])),
        decreases k - c,
    {
        let ghost before = out@;
        crate::galois_8::mul_slice_xor(row[c], shards[c].as_slice(), out.as_mut_slice());
        proof {
            assert forall|p: int| 0 <= p < len implies #[trigger] out@[p] == xsum((c + 1) as nat, |t: int| gf_mul(row@[t], views[t][p])) by {
                assert(before[p] == xsum(c as nat, |t: int| gf_mul(row@[t], views[t][p])));
            }
        }
        c = c + 1;
    }
    out
}

impl ReedSolomon {
    /// The shard checks: the count, then the lengths.
    pub(crate) fn check_shards(&self, shards: &[Vec<u8>]) -> (r: Result<(), Error>)
        requires
            self.wf(),
        ensures
            match shards_error(shard_views(shards@), (self.data_count() + self.parity_count()) as int) {
                Some(e) => r == Err::<(), Error>(e),
                None => r is Ok,
            },
    {
        let ghost views = shard_views(shards@);
        proof {
            self.lemma_fields();
        }
        if shards.len() < self.total_shard_count {
            return Err(Error::TooFewShards);
        }
        if shards.len() > self.total_shard_count {
            return Err(Error::TooManyShards);
        }
        let size = shards[0].len();
        if size == 0 {
            return Err(Error::EmptyShard);
        }
        let mut i: usize = 0;
        while i < shards.len()
            invariant
                views == shard_views(shards@),
                shards@.len() == self.data_count() + self.parity_count(),
                shards@.len() > 0,
                size > 0,
                size == views[0].len(),
                i <= shards@.len(),
                forall|t: int| 0 <= t < i ==> #[trigger] views[t].len() == size,
            decreases shards@.len() - i,
        {
            if shards[i].len() != size {
                assert(views[i as int].len() != views[0].len());
                return Err(Error::IncorrectShardSize);
            }
            i = i + 1;
        }
        Ok(())
    }

    /// Fill the parity shards from the data shards. Refused, with the shards
    /// unchanged, for a non-classic codec or when the shard checks fail.
    pub fn encode(&self, shards: &mut [Vec<u8>]) -> (r: Result<(), Error>)
        requires
            self.wf(),
        ensures
            encode_outcome(*self, old(shards)@, final(shards)@, r),
    {
        proof {
            self.lemma_fields();
        }
        if self.codec_family != CodecFamily::Classic {
            return Err(Error::UnsupportedCodecFamily);
        }
        match self.check_shards(shards) {
            Ok(()) => {},
            Err(e) => return Err(e),
        }
        let k = self.data_shard_count;
        let total = self.total_shard_count;
        let len = shards[0].len();
        let ghost orig = shards@;
        proof {
            self.lemma_classic_matrix();
            assert forall|i: int| 0 <= i < total implies #[trigger] orig[i]@.len() == len by {
                if orig[i]@.len() != len {
                    assert(shard_views(orig)[i].len() != shard_views(orig)[0].len());
                }
            }
        }
        let mut r: usize = k;
        while r < total
            invariant
                self.wf(),
                self.family() == CodecFamily::Classic,
                k == self.data_count(),
                total == self.data_count() + self.parity_count(),
                is_matrix(self.matrix_view(), total as int, k as int),
                self.matrix.wf(),
                self.matrix.rows() == total,
                self.matrix.cols() == k,
                self.matrix_view() == self.matrix@,
                k > 0,
                k <= r <= total,
                shards@.len() == total,
                orig.len() == total,
                forall|i: int| 0 <= i < total ==> #[trigger] shards@[i]@.len() == len,
                forall|i: int| 0 <= i < k ==> #[trigger] shards@[i] == orig[i],
                forall|i: int| r <= i < total ==> #[trigger] shards@[i] == orig[i],
                forall|i: int, p: int| k <= i < r && 0 <= p < len ==> #[trigger] shard_views(shards@)[i][p]
                    == code_byte(self.matrix_view()[i], shard_views(orig), k as nat, p),
            decreases total - r,
        {
            let out = code_row(self.matrix.get_row(r), shards, k, len);
            proof {
                assert forall|p: int| 0 <= p < len implies #[trigger] out@[p] == code_byte(self.matrix_view()[r as int], shard_views(orig), k as nat, p) by {
                    lemma_xsum_ext(
                        k as nat,
                        |t: int| gf_mul(self.matrix_view()[r as int][t], shard_views(shards@)[t][p]),
                        |t: int| gf_mul(self.matrix_view()[r as int][t], shard_views(orig)[t][p]),
                    );
                }
            }
            let ghost before = shards@;
            shards[r] = out;
            proof {
                assert forall|i: int, p: int| k <= i < r + 1 && 0 <= p < len implies #[trigger] shard_views(shards@)[i][p]
                    == code_byte(self.matrix_view()[i], shard_views(orig), k as nat, p) by {
                    if i < r {
                        assert(shard_views(before)[i][p] == code_byte(self.matrix_view()[i], shard_views(orig), k as nat, p));
                        assert(shards@[i] == before[i]);
                    } else {
                        assert(shards@[i]@ == out@);
                    }
                }
            }
            r = r + 1;
        }
        proof {
            let fin = shard_views(shards@);
            assert forall|i: int, p: int| k <= i < total && 0 <= p < fin[i].len() implies #[trigger] fin[i][p] == code_byte(self.matrix_view()[i], fin, k as nat, p) by {
                lemma_xsum_ext(
                    k as nat,
                    |t: int| gf_mul(self.matrix_view()[i][t], shard_views(orig)[t][p]),
                    |t: int| gf_mul(self.matrix_view()[i][t], fin[t][p]),
                );
            }
        }
        Ok(())
    }

    /// Whether the parity shards are the ones the data shards encode to.
    /// Refused for a non-classic codec or when the shard checks fail.
    pub fn verify(&self, shards: &[Vec<u8>]) -> (r: Result<bool, Error>)
        requires
            self.wf(),
        ensures
            verify_outcome(*self, shards@, r),
    {
        proof {
            self.lemma_fields();
        }
        if self.codec_family != CodecFamily::Classic {
            return Err(Error::UnsupportedCodecFamily);
        }
        match self.check_shards(shards) {
            Ok(()) => {},
            Err(e) => return Err(e),
        }
        let k = self.data_shard_count;
        let total = self.total_shard_count;
        let len = shards[0].len();
        let ghost views = shard_views(shards@);
        proof {
            self.lemma_classic_matrix();
            assert forall|i: int| 0 <= i < total implies #[trigger] views[i].len() == len by {
                if views[i].len() != len {
                    assert(views[i].len() != views[0].len());
                }
            }
        }
        let mut r: usize = k;
        while r < total
            invariant
                self.wf(),
                self.family() == CodecFamily::Classic,
                shards_error(views, (self.data_count() + self.parity_count()) as int) is None,
                k == self.data_count(),
                total == self.data_count() + self.parity_count(),
                is_matrix(self.matrix_view(), total as int, k as int),
                self.matrix.wf(),
                self.matrix.rows() == total,
                self.matrix.cols() == k,
                self.matrix_view() == self.matrix@,
                k > 0,
                k <= r <= total,
                views == shard_views(shards@),
                shards@.len() == total,
                forall|i: int| 0 <= i < total ==> #[trigger] views[i].len() == len,
                forall|i: int, p: int| k <= i < r && 0 <= p < views[i].len() ==> #[trigger] views[i][p]
                    == code_byte(self.matrix_view()[i], views, k as nat, p),
            decreases total - r,
        {
            proof {
                assert forall|c: int| 0 <= c < k implies #[trigger] shards@[c]@.len() == len by {
                    assert(views[c].len() == len);
                }
            }
            let expected = code_row(self.matrix.get_row(r), shards, k, len);
            let mut p: usize = 0;
            while p < len
                invariant
                    self.family() == CodecFamily::Classic,
                    shards_error(views, (self.data_count() + self.parity_count()) as int) is None,
                    k == self.data_count(),
                    total == self.data_count() + self.parity_count(),
                    k <= r < total,
                    views == shard_views(shards@),
                    shards@.len() == total,
                    views[r as int].len() == len,
                    expected@.len() == len,
                    forall|t: int| 0 <= t < len ==> #[trigger] expected@[t] == code_byte(self.matrix_view()[r as int], views, k as nat, t),
                    p <= len,
                    forall|t: int| 0 <= t < p ==> #[trigger] views[r as int][t] == expected@[t],
                decreases len - p,
            {
                if shards[r][p] != expected[p] {
                    assert(views[r as int][p as int] != code_byte(self.matrix_view()[r as int], views, k as nat, p as int));
                    return Ok(false);
                }
                p = p + 1;
            }
            r = r + 1;
        }
        Ok(true)
    }
}

/// What `encode` does: only the classic family encodes; the shards must pass
/// the checks, and then the data shards stay and each parity shard becomes its
/// encoding row applied to them. A refused call changes nothing.
pub open spec fn encode_outcome(rs: ReedSolomon, old: Seq<Vec<u8>>, fin: Seq<Vec<u8>>, r: Result<(), Error>) -> bool {
    if rs.family() != CodecFamily::Classic {
        r == Err::<(), Error>(Error::UnsupportedCodecFamily) && fin == old
    } else {
        match shards_error(shard_views(old), (rs.data_count() + rs.parity_count()) as int) {
            Some(e) => r == Err::<(), Error>(e) && fin == old,
            None => {
                &&& r is Ok
                &&& fin.len() == old.len()
                &&& uniform(shard_views(fin), old[0]@.len())
                &&& forall|i: int| 0 <= i < rs.data_count() ==> #[trigger] fin[i] == old[i]
                &&& is_encoded(rs.matrix_view(), shard_views(fin), rs.data_count() as nat, (rs.data_count() + rs.parity_count()) as nat)
            },
        }
    }
}

/// What `verify` answers: only the classic family verifies; shards that pass
/// the checks are answered whether they are encoded.
pub open spec fn verify_outcome(rs: ReedSolomon, shards: Seq<Vec<u8>>, r: Result<bool, Error>) -> bool {
    if rs.family() != CodecFamily::Classic {
        r == Err::<bool, Error>(Error::UnsupportedCodecFamily)
    } else {
        match shards_error(shard_views(shards), (rs.data_count() + rs.parity_count()) as int) {
            Some(e) => r == Err::<bool, Error>(e),
            None => r == Ok::<bool, Error>(is_encoded(
                rs.matrix_view(),
                shard_views(shards),
                rs.data_count() as nat,
                (rs.data_count() + rs.parity_count()) as nat,
            )),
        }
    }
}

/// What `verify_with_buffer` does: as `verify`, and on success each buffer
/// shard holds the parity recomputed from the data shards. A refused call
/// leaves the buffer as it was.
pub open spec fn verify_with_buffer_outcome(
    rs: ReedSolomon,
    shards: Seq<Vec<u8>>,
    old: Seq<Vec<u8>>,
    fin: Seq<Vec<u8>>,
    r: Result<bool, Error>,
) -> bool {
    if rs.family() != CodecFamily::Classic {
        r == Err::<bool, Error>(Error::UnsupportedCodecFamily) && fin == old
    } else {
        match buffer_error(shard_views(shards), shard_views(old), (rs.data_count() + rs.parity_count()) as int, rs.parity_count() as int) {
            Some(e) => r == Err::<bool, Error>(e) && fin == old,
            None => {
                &&& r == Ok::<bool, Error>(is_encoded(
                    rs.matrix_view(),
                    shard_views(shards),
                    rs.data_count() as nat,
                    (rs.data_count() + rs.parity_count()) as nat,
                ))
                &&& fin.len() == old.len()
                &&& forall|j: int| 0 <= j < rs.parity_count() ==> (#[trigger] fin[j])@.len() == shards[0]@.len()
                &&& forall|j: int, p: int| 0 <= j < rs.parity_count() && 0 <= p < shards[0]@.len()
                    ==> #[trigger] fin[j]@[p] == code_byte(rs.matrix_view()[rs.data_count() + j], shard_views(shards), rs.data_count() as nat, p)
            },
        }
    }
}

/// What `verify` answers for shards that pass the checks: whether they are
/// encoded. Encoding passes the checks on to its result, so verifying what
/// `encode` produced answers `true`.
pub proof fn lemma_encode_then_verify(rs: ReedSolomon, old: Seq<Seq<u8>>, fin: Seq<Seq<u8>>)
    requires
        rs.wf(),
        shards_error(old, (rs.data_count() + rs.parity_count()) as int) is None,
        fin.len() == old.len(),
        uniform(fin, old[0].len()),
        is_encoded(rs.matrix_view(), fin, rs.data_count() as nat, (rs.data_count() + rs.parity_count()) as nat),
    ensures
        shards_error(fin, (rs.data_count() + rs.parity_count()) as int) is None,
        is_encoded(rs.matrix_view(), fin, rs.data_count() as nat, (rs.data_count() + rs.parity_count()) as nat),
{
    rs.lemma_fields();
    assert(old[0].len() > 0);
    assert(fin[0].len() == old[0].len());
}

/// What `with_custom_matrix` reports before it reads the user matrix, or
/// `None` when those checks pass.
pub open spec fn custom_codec_error(data_shards: usize, parity_shards: usize, family: CodecFamily) -> Option<Error> {
    if data_shards == 0 {
        Some(Error::TooFewDataShards)
    } else if parity_shards == 0 {
        Some(Error::TooFewParityShards)
    } else if data_shards + parity_shards > 256 {
        Some(Error::TooManyShards)
    } else if family != CodecFamily::Classic {
        Some(Error::UnsupportedCodecFamily)
    } else {
        None
    }
}

impl ReedSolomon {
    /// A classic codec whose parity rows are the first `parity_shards` rows of
    /// `custom_matrix`, each cut to `data_shards` entries. The checks run in
    /// order: a data and a parity shard at least, at most 256 shards, the
    /// classic family, then a row per parity shard with an entry per data
    /// shard; the matrix mode becomes `Custom` and a zero cache capacity the
    /// recommended one.
    pub fn with_custom_matrix(
        data_shards: usize,
        parity_shards: usize,
        custom_matrix: &[Vec<u8>],
        options: CodecOptions,
    ) -> (r: Result<ReedSolomon, Error>)
        ensures
            match custom_codec_error(data_shards, parity_shards, options.codec_family) {
                Some(e) => r == Err::<ReedSolomon, Error>(e),
                None => match custom_matrix_error(custom_matrix@, data_shards as int, parity_shards as int) {
                    Some(e) => r == Err::<ReedSolomon, Error>(e),
                    None => r matches Ok(rs) && rs.wf() && rs.data_count() == data_shards
                        && rs.parity_count() == parity_shards && rs.family() == CodecFamily::Classic
                        && rs.opts() == (CodecOptions {
                            matrix_mode: MatrixMode::Custom,
                            inversion_cache_capacity: if options.inversion_cache_capacity > 0 {
                                options.inversion_cache_capacity
                            } else {
                                recommended_capacity_spec(data_shards, parity_shards) as usize
                            },
                            ..options
                        })
                        && forall|i: int, j: int| 0 <= i < data_shards + parity_shards && 0 <= j < data_shards
                            ==> #[trigger] rs.matrix_view()[i][j] == custom_entry(custom_matrix@, data_shards as int, i, j),
                },
            },
    {
        let mut options = options;
        if data_shards == 0 {
            return Err(Error::TooFewDataShards);
        }
        if parity_shards == 0 {
            return Err(Error::TooFewParityShards);
        }
        let total_shards = match data_shards.checked_add(parity_shards) {
            Some(t) => t,
            None => return Err(Error::TooManyShards),
        };
        if total_shards > crate::galois_8::GF8_ORDER {
            return Err(Error::TooManyShards);
        }
        if options.codec_family != CodecFamily::Classic {
            return Err(Error::UnsupportedCodecFamily);
        }
        options.matrix_mode = MatrixMode::Custom;
        options.inversion_cache_capacity = Self::normalize_inversion_cache_capacity(
            data_shards,
            parity_shards,
            options.inversion_cache_capacity,
        );
        let matrix = match Self::build_custom_matrix(data_shards, total_shards, custom_matrix) {
            Ok(m) => m,
            Err(e) => return Err(e),
        };
        proof {
            matrix.lemma_view();
            assert forall|i: int, c: int| 0 <= i < data_shards && 0 <= c < data_shards implies #[trigger] matrix@[i][c] == id_entry(i, c) by {
                assert(matrix@[i][c] == custom_entry(custom_matrix@, data_shards as int, i, c));
            }
        }
        Ok(ReedSolomon::assemble(data_shards, parity_shards, total_shards, matrix, options))
    }
}

/// What `verify_with_buffer` reports, or `None` when its checks pass: the
/// shard count, the buffer count (a buffer per parity shard), the shard
/// lengths, the buffer lengths, then a buffer length equal to the shard length.
pub open spec fn buffer_error(shards: Seq<Seq<u8>>, buffer: Seq<Seq<u8>>, total: int, parity: int) -> Option<Error> {
    if shards.len() < total {
        Some(Error::TooFewShards)
    } else if shards.len() > total {
        Some(Error::TooManyShards)
    } else if buffer.len() < parity {
        Some(Error::TooFewBufferShards)
    } else if buffer.len() > parity {
        Some(Error::TooManyBufferShards)
    } else if shards_error(shards, total) is Some {
        shards_error(shards, total)
    } else if buffer[0].len() == 0 {
        Some(Error::EmptyShard)
    } else if exists|i: int| 0 <= i < buffer.len() && #[trigger] buffer[i].len() != buffer[0].len() {
        Some(Error::IncorrectShardSize)
    } else if shards[0].len() != buffer[0].len() {
        Some(Error::IncorrectShardSize)
    } else {
        None
    }
}

impl ReedSolomon {
    /// Compute the parity of the data shards into `buffer` and say whether it
    /// matches the parity shards. Refused, with the buffer unchanged, for a
    /// non-classic codec or when the checks fail.
    pub fn verify_with_buffer(&self, shards: &[Vec<u8>], buffer: &mut [Vec<u8>]) -> (r: Result<bool, Error>)
        requires
            self.wf(),
        ensures
            verify_with_buffer_outcome(*self, shards@, old(buffer)@, final(buffer)@, r),
    {
        proof {
            self.lemma_fields();
        }
        if self.codec_family != CodecFamily::Classic {
            return Err(Error::UnsupportedCodecFamily);
        }
        let k = self.data_shard_count;
        let total = self.total_shard_count;
        let parity = self.parity_shard_count;
        if shards.len() < total {
            return Err(Error::TooFewShards);
        }
        if shards.len() > total {
            return Err(Error::TooManyShards);
        }
        if buffer.len() < parity {
            return Err(Error::TooFewBufferShards);
        }
        if buffer.len() > parity {
            return Err(Error::TooManyBufferShards);
        }
        match self.check_shards(shards) {
            Ok(()) => {},
            Err(e) => return Err(e),
        }
        let ghost bviews = shard_views(buffer@);
        let blen = buffer[0].len();
        if blen == 0 {
            return Err(Error::EmptyShard);
        }
        let mut i: usize = 0;
        while i < buffer.len()
            invariant
                self.family() == CodecFamily::Classic,
                total == self.data_count() + self.parity_count(),
                parity == self.parity_count(),
                shards@.len() == total,
                shards_error(shard_views(shards@), total as int) is None,
                bviews == shard_views(buffer@),
                buffer@.len() == parity,
                parity > 0,
                blen > 0,
                blen == bviews[0].len(),
                i <= buffer@.len(),
                forall|t: int| 0 <= t < i ==> #[trigger] bviews[t].len() == blen,
            decreases buffer@.len() - i,
        {
            if buffer[i].len() != blen {
                assert(bviews[i as int].len() != bviews[0].len());
                return Err(Error::IncorrectShardSize);
            }
            i = i + 1;
        }
        let len = shards[0].len();
        if len != blen {
            return Err(Error::IncorrectShardSize);
        }
        let ghost views = shard_views(shards@);
        proof {
            self.lemma_classic_matrix();
            assert forall|t: int| 0 <= t < total implies #[trigger] views[t].len() == len by {
                if views[t].len() != len {
                    assert(views[t].len() != views[0].len());
                }
            }
        }
        let mut all_match = true;
        let mut j: usize = 0;
        while j < parity
            invariant
                self.wf(),
                self.family() == CodecFamily::Classic,
                k == self.data_count(),
                parity == self.parity_count(),
                total == k + parity,
                is_matrix(self.matrix_view(), total as int, k as int),
                self.matrix.wf(),
                self.matrix.rows() == total,
                self.matrix.cols() == k,
                self.matrix_view() == self.matrix@,
                k > 0,
                views == shard_views(shards@),
                shards@.len() == total,
                len == views[0].len(),
                forall|t: int| 0 <= t < total ==> #[trigger] views[t].len() == len,
                buffer@.len() == parity,
                j <= parity,
                forall|t: int| 0 <= t < j ==> (#[trigger] buffer@[t])@.len() == len,
                forall|t: int, p: int| 0 <= t < j && 0 <= p < len ==> #[trigger] buffer@[t]@[p] == code_byte(self.matrix_view()[k + t], views, k as nat, p),
                all_match == forall|t: int, p: int| k <= t < k + j && 0 <= p < views[t].len() ==> #[trigger] views[t][p] == code_byte(self.matrix_view()[t], views, k as nat, p),
            decreases parity - j,
        {
            proof {
                assert forall|c: int| 0 <= c < k implies #[trigger] shards@[c]@.len() == len by {
                    assert(views[c].len() == len);
                }
            }
            let expected = code_row(self.matrix.get_row(k + j), shards, k, len);
            let mut same = true;
            let mut p: usize = 0;
            while p < len
                invariant
                    k + j < total,
                    views == shard_views(shards@),
                    shards@.len() == total,
                    views[(k + j) as int].len() == len,
                    expected@.len() == len,
                    p <= len,
                    same == forall|t: int| 0 <= t < p ==> #[trigger] views[(k + j) as int][t] == expected@[t],
                decreases len - p,
            {
                if shards[k + j][p] != expected[p] {
                    same = false;
                }
                p = p + 1;
            }
            let ghost before = buffer@;
            buffer[j] = expected;
            proof {
                assert forall|t: int| 0 <= t < j + 1 implies (#[trigger] buffer@[t])@.len() == len by {
                    if t < j {
                        assert(buffer@[t] == before[t]);
                    }
                }
                assert forall|t: int, p: int| 0 <= t < j + 1 && 0 <= p < len implies #[trigger] buffer@[t]@[p] == code_byte(self.matrix_view()[k + t], views, k as nat, p) by {
                    if t < j {
                        assert(buffer@[t] == before[t]);
                    }
                }
                let ghost cond_now = forall|t: int, p: int| k <= t < k + j + 1 && 0 <= p < views[t].len() ==> #[trigger] views[t][p] == code_byte(self.matrix_view()[t], views, k as nat, p);
                if !same {
                    let q = choose|q: int| 0 <= q < len && !(#[trigger] views[(k + j) as int][q] == expected@[q]);
                    assert(!(views[(k + j) as int][q] == code_byte(self.matrix_view()[(k + j) as int], views, k as nat, q)));
                }
                if same {
                    assert forall|t: int, p: int| k + j <= t < k + j + 1 && 0 <= p < views[t].len() implies #[trigger] views[t][p] == code_byte(self.matrix_view()[t], views, k as nat, p) by {
                        assert(views[(k + j) as int][p] == expected@[p]);
                    }
                }
            }
            all_match = all_match && same;
            j = j + 1;
        }
        Ok(all_match)
    }

    /// Encode on the path the shard size calls for: the serial path, as
    /// `encode`.
    pub fn encode_opt(&self, shards: &mut [Vec<u8>]) -> (r: Result<(), Error>)
        requires
            self.wf(),
        ensures
            encode_outcome(*self, old(shards)@, final(shards)@, r),
    {
        self.encode(shards)
    }

    /// Verify on the path the shard size calls for: the answer of `verify`.
    pub fn verify_opt(&self, shards: &[Vec<u8>]) -> (r: Result<bool, Error>)
        requires
            self.wf(),
        ensures
            verify_outcome(*self, shards@, r),
    {
        self.verify(shards)
    }

    /// Verify with a buffer on the path the shard size calls for: as
    /// `verify_with_buffer`.
    pub fn verify_with_buffer_opt(&self, shards: &[Vec<u8>], buffer: &mut [Vec<u8>]) -> (r: Result<bool, Error>)
        requires
            self.wf(),
        ensures
            verify_with_buffer_outcome(*self, shards@, old(buffer)@, final(buffer)@, r),
    {
        self.verify_with_buffer(shards, buffer)
    }
}

} // verus!
