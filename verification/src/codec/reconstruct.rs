//! Reconstruction of missing shards for the classic codec: the checks on the
//! shards, the decode matrix of the shards present, and the recovery of the
//! missing data and parity shards.
use vstd::prelude::*;

use crate::codec::CodecFamily;
use crate::codec::cauchy::lemma_mds_rows_nonsingular;
use crate::codec::classic::{code_byte, is_encoded, is_mds_code, is_systematic, is_vandermonde_code, uniform};
use crate::codec::reed_solomon::ReedSolomon;
use crate::errors::Error;
use crate::galois_8::{gf_mul, gf_pow, lemma_add_group, lemma_mul_associative, lemma_mul_commutative, lemma_mul_identity};
use crate::matrix::{
    Matrix, dot, eval_poly, id_entry, is_inverse, is_matrix, kernel_vector, lemma_assoc_entry, lemma_inverse_unique, lemma_poly_roots, lemma_singular_no_left_inverse, is_left_inverse,
    lemma_times_identity, lemma_xsum_exchange, lemma_xsum_ext, lemma_xsum_scale, lemma_xsum_single, lemma_xsum_zero,
    mat_mul, prod_entry, singular, sub_matrix_spec, vandermonde_spec, xsum,
};

verus! {

/// The shards as optional byte sequences.
pub open spec fn opt_views(shards: Seq<Option<Vec<u8>>>) -> Seq<Option<Seq<u8>>> {
    shards.map_values(|s: Option<Vec<u8>>| match s {
        Some(v) => Some(v@),
        None => None::<Seq<u8>>,
    })
}

/// The bytes of a shard, or nothing for a missing one.
pub open spec fn content(s: Option<Seq<u8>>) -> Seq<u8> {
    match s {
        Some(v) => v,
        None => Seq::empty(),
    }
}

/// The number of shards present among the first `n`.
pub open spec fn present_count(s: Seq<Option<Seq<u8>>>, n: nat) -> nat
    decreases n,
{
    if n == 0 {
        0
    } else {
        present_count(s, (n - 1) as nat) + if s[n - 1] is Some {
            1nat
        } else {
            0nat
        }
    }
}

/// The indices of the shards present among the first `n`, in order.
pub open spec fn present_prefix(s: Seq<Option<Seq<u8>>>, n: nat) -> Seq<usize>
    decreases n,
{
    if n == 0 {
        Seq::empty()
    } else if s[n - 1] is Some {
        present_prefix(s, (n - 1) as nat).push((n - 1) as usize)
    } else {
        present_prefix(s, (n - 1) as nat)
    }
}

/// The shards present before index `i` are non-empty and of one length.
pub open spec fn consistent_before(s: Seq<Option<Seq<u8>>>, i: int) -> bool {
    forall|a: int, b: int|
        0 <= a < i && 0 <= b < i && s[a] is Some && s[b] is Some ==> #[trigger] content(s[a]).len() == #[trigger] content(s[b]).len()
            && content(s[a]).len() > 0
}

/// What the length checks on the present shards report: an empty shard
/// reached while the earlier ones agree, else two present shards of different
/// lengths.
pub open spec fn lengths_error(s: Seq<Option<Seq<u8>>>) -> Option<Error> {
    if exists|i: int| 0 <= i < s.len() && #[trigger] s[i] is Some && content(s[i]).len() == 0 && consistent_before(s, i) {
        Some(Error::EmptyShard)
    } else if exists|a: int, b: int| 0 <= a < s.len() && 0 <= b < s.len() && s[a] is Some && s[b] is Some
        && #[trigger] content(s[a]).len() != #[trigger] content(s[b]).len() {
        Some(Error::IncorrectShardSize)
    } else {
        None
    }
}

/// What the checks before any recovery report, in order: the shard count,
/// the lengths, then too few shards present to recover from.
pub open spec fn reconstruct_error(s: Seq<Option<Seq<u8>>>, total: int, k: int) -> Option<Error> {
    if s.len() < total {
        Some(Error::TooFewShards)
    } else if s.len() > total {
        Some(Error::TooManyShards)
    } else if lengths_error(s) is Some {
        lengths_error(s)
    } else if present_count(s, total as nat) < total && present_count(s, total as nat) < k {
        Some(Error::TooFewShardsPresent)
    } else {
        None
    }
}

/// The length of a present shard (all have one length once the checks pass).
pub open spec fn common_len(s: Seq<Option<Seq<u8>>>) -> nat {
    content(s[choose|i: int| 0 <= i < s.len() && #[trigger] s[i] is Some]).len()
}

/// Byte `p` of `row` applied to the shards at the indices `idx`.
pub open spec fn gather_byte(row: Seq<u8>, s: Seq<Option<Seq<u8>>>, idx: Seq<usize>, p: int) -> u8 {
    xsum(idx.len(), |c: int| gf_mul(row[c], content(s[idx[c] as int])[p]))
}

/// The rows of `m` at the indices `idx`.
pub open spec fn rows_at(m: Seq<Seq<u8>>, idx: Seq<usize>) -> Seq<Seq<u8>> {
    Seq::new(idx.len(), |j: int| m[idx[j] as int])
}

/// The indices `0..k`.
pub open spec fn first_indices(k: nat) -> Seq<usize> {
    Seq::new(k, |c: int| c as usize)
}

/// Shard `i` was recovered as `bytes`: present, of length `len`, byte `p`
/// equal to `bytes(p)`.
pub open spec fn filled_with(s: Option<Seq<u8>>, len: nat, bytes: spec_fn(int) -> u8) -> bool {
    &&& s is Some
    &&& content(s).len() == len
    &&& forall|p: int| 0 <= p < len ==> #[trigger] content(s)[p] == bytes(p)
}

/// The outcome of a successful recovery from `old` to `fin`: the shards
/// present stay; each missing data shard is the matching row of the inverse
/// of the encoding rows of the first `k` shards present, applied to those
/// shards; each missing parity shard is left missing when only data is
/// recovered, else its encoding row applied to the data shards.
pub open spec fn recovered(m: Seq<Seq<u8>>, old: Seq<Option<Seq<u8>>>, fin: Seq<Option<Seq<u8>>>, k: nat, total: nat, data_only: bool) -> bool {
    let v = present_prefix(old, total).take(k as int);
    let len = common_len(old);
    &&& fin.len() == total
    &&& forall|i: int| 0 <= i < total && old[i] is Some ==> #[trigger] fin[i] == old[i]
    &&& exists|inv: Seq<Seq<u8>>| {
        &&& is_matrix(inv, k as int, k as int)
        &&& #[trigger] is_inverse(inv, rows_at(m, v), k)
        &&& forall|i: int| 0 <= i < k && old[i] is None ==> filled_with(#[trigger] fin[i], len, |p: int| gather_byte(inv[i], old, v, p))
    }
    &&& forall|r: int| k <= r < total && old[r] is None ==> if data_only {
        #[trigger] fin[r] is None
    } else {
        filled_with(fin[r], len, |p: int| gather_byte(m[r], fin, first_indices(k), p))
    }
}

/// The indices present among the first `n` shards: as many as counted,
/// increasing, below `n`, each of a present shard.
pub(crate) proof fn lemma_present_prefix(s: Seq<Option<Seq<u8>>>, n: nat)
    requires
        n <= s.len(),
        s.len() <= usize::MAX,
    ensures
        present_prefix(s, n).len() == present_count(s, n),
        present_count(s, n) <= n,
        forall|j: int| 0 <= j < present_prefix(s, n).len() ==> #[trigger] present_prefix(s, n)[j] < n
            && s[present_prefix(s, n)[j] as int] is Some,
        forall|a: int, b: int| 0 <= a < b < present_prefix(s, n).len() ==> #[trigger] present_prefix(s, n)[a] < #[trigger] present_prefix(s, n)[b],
    decreases n,
{
    if n > 0 {
        let m = (n - 1) as nat;
        lemma_present_prefix(s, m);
        let q = present_prefix(s, m);
        let pp = present_prefix(s, n);
        if s[n - 1] is Some {
            assert(pp == q.push(m as usize));
            assert forall|j: int| 0 <= j < pp.len() implies #[trigger] pp[j] < n && s[pp[j] as int] is Some by {
                if j < q.len() {
                    assert(pp[j] == q[j]);
                    assert(present_prefix(s, m)[j] < m && s[present_prefix(s, m)[j] as int] is Some);
                }
            }
            assert forall|a: int, b: int| 0 <= a < b < pp.len() implies #[trigger] pp[a] < #[trigger] pp[b] by {
                assert(pp[a] == q[a]);
                assert(present_prefix(s, m)[a] < m);
                if b < q.len() {
                    assert(pp[b] == q[b]);
                    assert(present_prefix(s, m)[a] < present_prefix(s, m)[b]);
                }
            }
        } else {
            assert(pp == q);
            assert forall|j: int| 0 <= j < pp.len() implies #[trigger] pp[j] < n && s[pp[j] as int] is Some by {
                assert(present_prefix(s, m)[j] < m && s[present_prefix(s, m)[j] as int] is Some);
            }
            assert forall|a: int, b: int| 0 <= a < b < pp.len() implies #[trigger] pp[a] < #[trigger] pp[b] by {
                assert(present_prefix(s, m)[a] < present_prefix(s, m)[b]);
            }
        }
    }
}

/// Each index `< n` of a present shard is listed among the first `n` present.
proof fn lemma_present_prefix_complete(s: Seq<Option<Seq<u8>>>, n: nat, i: int)
    requires
        n <= s.len(),
        s.len() <= usize::MAX,
        0 <= i < n,
        s[i] is Some,
    ensures
        present_prefix(s, n).contains(i as usize),
    decreases n,
{
    if i < n - 1 {
        lemma_present_prefix_complete(s, (n - 1) as nat, i);
        let q = present_prefix(s, (n - 1) as nat);
        let j = choose|j: int| 0 <= j < q.len() && q[j] == i as usize;
        if s[n - 1] is Some {
            assert(q.push((n - 1) as usize)[j] == i as usize);
        }
    } else {
        let q = present_prefix(s, (n - 1) as nat);
        assert(q.push((n - 1) as usize)[q.len() as int] == i as usize);
    }
}

/// The length checks on the present shards, and their count and common length.
pub(crate) fn scan_shards(shards: &[Option<Vec<u8>>]) -> (r: Result<(usize, usize), Error>)
    ensures
        match lengths_error(opt_views(shards@)) {
            Some(e) => r == Err::<(usize, usize), Error>(e),
            None => r matches Ok((n, len)) && n == present_count(opt_views(shards@), shards@.len())
                && (forall|i: int| 0 <= i < shards@.len() && shards@[i] is Some ==> #[trigger] content(opt_views(shards@)[i]).len() == len)
                && (n > 0 ==> len > 0 && len == common_len(opt_views(shards@))),
        },
{
    let ghost views = opt_views(shards@);
    let mut number_present: usize = 0;
    let mut shard_len: usize = 0;
    let ghost mut first: int = -1;
    let mut i: usize = 0;
    while i < shards.len()
        invariant
            views == opt_views(shards@),
            views.len() == shards@.len(),
            i <= shards@.len(),
            number_present == present_count(views, i as nat),
            number_present <= i,
            number_present == 0 <==> first == -1,
            number_present == 0 ==> forall|a: int| 0 <= a < i ==> #[trigger] views[a] is None,
            number_present > 0 ==> 0 <= first < i && views[first] is Some && content(views[first]).len() == shard_len && shard_len > 0,
            forall|a: int| 0 <= a < i && views[a] is Some ==> #[trigger] content(views[a]).len() == shard_len && shard_len > 0,
            consistent_before(views, i as int),
        decreases shards@.len() - i,
    {
        match &shards[i] {
            Some(v) => {
                assert(views[i as int] == Some(v@));
                let l = v.len();
                if l == 0 {
                    assert(views[i as int] is Some && content(views[i as int]).len() == 0 && consistent_before(views, i as int));
                    return Err(Error::EmptyShard);
                }
                if number_present > 0 && l != shard_len {
                    proof {
                        assert(content(views[first]).len() != content(views[i as int]).len());
                        assert forall|j: int| 0 <= j < views.len() && #[trigger] views[j] is Some && content(views[j]).len() == 0 implies !consistent_before(views, j) by {
                            if j > i {
                                assert(content(views[first]).len() != content(views[i as int]).len());
                            }
                        }
                    }
                    return Err(Error::IncorrectShardSize);
                }
                proof {
                    if number_present == 0 {
                        first = i as int;
                    }
                }
                number_present = number_present + 1;
                shard_len = l;
            },
            None => {
                assert(views[i as int] is None);
            },
        }
        i = i + 1;
    }
    proof {
        assert(lengths_error(views) is None) by {
            assert forall|j: int| 0 <= j < views.len() && #[trigger] views[j] is Some implies content(views[j]).len() != 0 by {}
        }
        if number_present > 0 {
            let c = choose|j: int| 0 <= j < views.len() && #[trigger] views[j] is Some;
            assert(views[first] is Some);
            assert(content(views[c]).len() == shard_len);
        }
    }
    Ok((number_present, shard_len))
}

/// The indices of the first `k` shards present.
pub(crate) fn first_present(shards: &[Option<Vec<u8>>], k: usize) -> (valid: Vec<usize>)
    requires
        present_count(opt_views(shards@), shards@.len()) >= k,
    ensures
        valid@ == present_prefix(opt_views(shards@), shards@.len()).take(k as int),
{
    let ghost views = opt_views(shards@);
    let mut valid: Vec<usize> = Vec::with_capacity(k);
    let mut i: usize = 0;
    while i < shards.len()
        invariant
            views == opt_views(shards@),
            views.len() == shards@.len(),
            i <= shards@.len(),
            valid@ == present_prefix(views, i as nat).take(
                if present_count(views, i as nat) < k { present_count(views, i as nat) as int } else { k as int },
            ),
        decreases shards@.len() - i,
    {
        proof {
            lemma_present_prefix(views, i as nat);
            lemma_present_prefix(views, (i + 1) as nat);
        }
        let ghost q = present_prefix(views, i as nat);
        if shards[i].is_some() && valid.len() < k {
            assert(views[i as int] is Some);
            valid.push(i);
            proof {
                assert(present_count(views, i as nat) < k);
                assert(valid@ =~= q.push(i).take((present_count(views, i as nat) + 1) as int));
            }
        } else {
            proof {
                if views[i as int] is Some {
                    assert(present_count(views, i as nat) >= k);
                    assert(q.push(i).take(k as int) =~= q.take(k as int));
                } else {
                    assert(present_prefix(views, (i + 1) as nat) == q);
                }
            }
        }
        i = i + 1;
    }
    proof {
        lemma_present_prefix(views, shards@.len() as nat);
    }
    valid
}

/// `row` applied to the shards at the indices `idx`, all present with `len`
/// bytes.
fn gather_row(row: &[u8], shards: &[Option<Vec<u8>>], idx: &[usize], len: usize) -> (out: Vec<u8>)
    requires
        1 <= idx@.len() <= row@.len(),
        forall|c: int| 0 <= c < idx@.len() ==> #[trigger] idx@[c] < shards@.len(),
        forall|c: int| 0 <= c < idx@.len() ==> #[trigger] shards@[idx@[c] as int] is Some,
        forall|c: int| 0 <= c < idx@.len() ==> #[trigger] content(opt_views(shards@)[idx@[c] as int]).len() == len,
    ensures
        out@.len() == len,
        forall|p: int| 0 <= p < len ==> #[trigger] out@[p] == gather_byte(row@, opt_views(shards@), idx@, p),
{
    let ghost views = opt_views(shards@);
    let k = idx.len();
    let mut out: Vec<u8> = vec![0u8; len];
    let first = shards[idx[0]].as_ref().unwrap();
    assert(views[idx@[0] as int] == Some(first@));
    assert(content(views[idx@[0] as int]).len() == len);
    crate::galois_8::mul_slice(row[0], first.as_slice(), out.as_mut_slice());
    proof {
        assert forall|p: int| 0 <= p < len implies #[trigger] out@[p] == xsum(1, |t: int| gf_mul(row@[t], content(views[idx@[t] as int])[p])) by {
            let f = |t: int| gf_mul(row@[t], content(views[idx@[t] as int])[p]);
            assert(out@[p] == f(0));
            assert(xsum(0, f) == 0u8);
            assert(xsum(1, f) == xsum(0, f) ^ f(0));
            lemma_add_group(0u8, f(0));
            lemma_add_group(f(0), 0u8);
        }
    }
    let mut c: usize = 1;
    while c < k
        invariant
            1 <= c <= k,
            k == idx@.len(),
            k <= row@.len(),
            views == opt_views(shards@),
            forall|t: int| 0 <= t < k ==> #[trigger] idx@[t] < shards@.len(),
            forall|t: int| 0 <= t < k ==> #[trigger] shards@[idx@[t] as int] is Some,
            forall|t: int| 0 <= t < k ==> #[trigger] content(views[idx@[t] as int]).len() == len,
            out@.len() == len,
            forall|p: int| 0 <= p < len ==> #[trigger] out@[p] == xsum(c as nat, |t: int| gf_mul(row@[t], content(views[idx@[t] as int])[p])),
        decreases k - c,
    {
        let input = shards[idx[c]].as_ref().unwrap();
        assert(views[idx@[c as int] as int] == Some(input@));
        assert(content(views[idx@[c as int] as int]).len() == len);
        let ghost before = out@;
        crate::galois_8::mul_slice_xor(row[c], input.as_slice(), out.as_mut_slice());
        proof {
            assert forall|p: int| 0 <= p < len implies #[trigger] out@[p] == xsum((c + 1) as nat, |t: int| gf_mul(row@[t], content(views[idx@[t] as int])[p])) by {
                assert(before[p] == xsum(c as nat, |t: int| gf_mul(row@[t], content(views[idx@[t] as int])[p])));
            }
        }
        c = c + 1;
    }
    out
}

impl ReedSolomon {
    /// The inverse of the encoding rows of the shards at `valid_indices`,
    /// which must name `data_shard_count` shards.
    pub(crate) fn get_data_decode_matrix(&self, valid_indices: &[usize]) -> (r: Result<Matrix, Error>)
        requires
            self.wf(),
            self.family() == CodecFamily::Classic,
            forall|j: int| 0 <= j < valid_indices@.len() ==> #[trigger] valid_indices@[j] < self.data_count() + self.parity_count(),
        ensures
            valid_indices@.len() != self.data_count() ==> r == Err::<Matrix, Error>(Error::TooFewShardsPresent),
            valid_indices@.len() == self.data_count() ==> {
                &&& r matches Ok(inv) ==> inv.wf() && inv.rows() == self.data_count() && inv.cols() == self.data_count()
                    && is_inverse(inv@, rows_at(self.matrix_view(), valid_indices@), self.data_count() as nat)
                &&& r is Err ==> r == Err::<Matrix, Error>(Error::InvalidCustomMatrix)
                    && singular(rows_at(self.matrix_view(), valid_indices@), self.data_count() as nat)
            },
    {
        proof {
            self.lemma_fields();
        }
        let k = self.data_shard_count;
        if valid_indices.len() != k {
            return Err(Error::TooFewShardsPresent);
        }
        let ghost m = self.matrix@;
        let mut sub_matrix = Matrix::new(k, k);
        let mut row: usize = 0;
        while row < k
            invariant
                self.wf(),
                self.matrix.wf(),
                m == self.matrix@,
                self.matrix.rows() == self.total_shard_count,
                self.matrix.cols() == k,
                k == valid_indices@.len(),
                k <= 256,
                forall|j: int| 0 <= j < k ==> #[trigger] valid_indices@[j] < self.total_shard_count,
                sub_matrix.wf(),
                sub_matrix.rows() == k,
                sub_matrix.cols() == k,
                row <= k,
                forall|i: int, c: int| 0 <= i < k && 0 <= c < k ==> #[trigger] sub_matrix@[i][c] == if i < row {
                    m[valid_indices@[i] as int][c]
                } else {
                    0u8
                },
            decreases k - row,
        {
            let valid_index = valid_indices[row];
            let mut c: usize = 0;
            while c < k
                invariant
                    self.matrix.wf(),
                    m == self.matrix@,
                    self.matrix.rows() == self.total_shard_count,
                    self.matrix.cols() == k,
                    k == valid_indices@.len(),
                    row < k,
                    valid_index == valid_indices@[row as int],
                    valid_index < self.total_shard_count,
                    sub_matrix.wf(),
                    sub_matrix.rows() == k,
                    sub_matrix.cols() == k,
                    c <= k,
                    forall|i: int, t: int| 0 <= i < k && 0 <= t < k ==> #[trigger] sub_matrix@[i][t] == if i < row || (i == row && t < c) {
                        m[valid_indices@[i] as int][t]
                    } else {
                        0u8
                    },
                decreases k - c,
            {
                let v = self.matrix.get(valid_index, c);
                let ghost before = sub_matrix@;
                proof {
                    sub_matrix.lemma_view();
                }
                sub_matrix.set(row, c, v);
                assert forall|i: int, t: int| 0 <= i < k && 0 <= t < k implies #[trigger] sub_matrix@[i][t] == if i < row || (i == row && t < c + 1) {
                    m[valid_indices@[i] as int][t]
                } else {
                    0u8
                } by {
                    assert(before[i][t] == if i < row || (i == row && t < c) {
                        m[valid_indices@[i] as int][t]
                    } else {
                        0u8
                    });
                }
                c = c + 1;
            }
            row = row + 1;
        }
        proof {
            sub_matrix.lemma_view();
            assert(sub_matrix@ =~= rows_at(m, valid_indices@)) by {
                assert forall|i: int| 0 <= i < k implies #[trigger] sub_matrix@[i] =~= rows_at(m, valid_indices@)[i] by {
                    self.matrix.lemma_view();
                }
            }
        }
        match sub_matrix.invert() {
            Ok(inv) => Ok(inv),
            Err(_) => Err(Error::InvalidCustomMatrix),
        }
    }
}

/// The outcome of a reconstruction of a classic codec with encoding matrix
/// `m`, from the shards `old` to `fin`: the first failed check leaves the
/// shards as they were; with every shard present nothing changes; else the
/// missing shards are recovered, unless the encoding rows of the first `k`
/// shards present have no inverse, which is found before any shard is
/// written and changes nothing.
pub open spec fn reconstruct_outcome(
    m: Seq<Seq<u8>>,
    old: Seq<Option<Seq<u8>>>,
    fin: Seq<Option<Seq<u8>>>,
    k: nat,
    total: nat,
    data_only: bool,
    r: Result<(), Error>,
) -> bool {
    match reconstruct_error(old, total as int, k as int) {
        Some(e) => r == Err::<(), Error>(e) && fin == old,
        None => if present_count(old, total) == total {
            r is Ok && fin == old
        } else {
            ||| (r is Ok && recovered(m, old, fin, k, total, data_only))
            ||| (r == Err::<(), Error>(Error::InvalidCustomMatrix) && fin == old
                && singular(rows_at(m, present_prefix(old, total).take(k as int)), k))
        },
    }
}

/// The shards at `idx` hold the same bytes in `a` and in `b`, so any row
/// gathers the same bytes from both.
pub(crate) proof fn lemma_gather_same(row: Seq<u8>, a: Seq<Option<Seq<u8>>>, b: Seq<Option<Seq<u8>>>, idx: Seq<usize>, p: int)
    requires
        forall|c: int| 0 <= c < idx.len() ==> #[trigger] content(a[idx[c] as int]) == content(b[idx[c] as int]),
    ensures
        gather_byte(row, a, idx, p) == gather_byte(row, b, idx, p),
{
    lemma_xsum_ext(
        idx.len(),
        |c: int| gf_mul(row[c], content(a[idx[c] as int])[p]),
        |c: int| gf_mul(row[c], content(b[idx[c] as int])[p]),
    );
}

/// Give each missing shard that will be recovered a zeroed buffer of `len`
/// bytes, and report which shards were missing.
pub(crate) fn init_missing(shards: &mut [Option<Vec<u8>>], k: usize, data_only: bool, len: usize) -> (missing: Vec<bool>)
    ensures
        final(shards)@.len() == old(shards)@.len(),
        missing@.len() == old(shards)@.len(),
        forall|i: int| 0 <= i < old(shards)@.len() ==> #[trigger] missing@[i] == (old(shards)@[i] is None),
        forall|i: int| 0 <= i < old(shards)@.len() ==> #[trigger] opt_views(final(shards)@)[i] == if old(shards)@[i] is None && (i < k || !data_only) {
            Some(Seq::new(len as nat, |p: int| 0u8))
        } else {
            opt_views(old(shards)@)[i]
        },
{
    let ghost old_views = opt_views(shards@);
    let ghost orig = shards@;
    let n = shards.len();
    let mut missing: Vec<bool> = Vec::with_capacity(n);
    let mut i: usize = 0;
    while i < n
        invariant
            n == shards@.len(),
            n == orig.len(),
            old_views == opt_views(orig),
            i <= n,
            missing@.len() == i,
            forall|j: int| 0 <= j < i ==> #[trigger] missing@[j] == (orig[j] is None),
            forall|j: int| i <= j < n ==> #[trigger] shards@[j] == orig[j],
            forall|j: int| 0 <= j < i ==> #[trigger] opt_views(shards@)[j] == if orig[j] is None && (j < k || !data_only) {
                Some(Seq::new(len as nat, |p: int| 0u8))
            } else {
                old_views[j]
            },
        decreases n - i,
    {
        let is_missing = shards[i].is_none();
        missing.push(is_missing);
        let ghost before = shards@;
        if is_missing && (i < k || !data_only) {
            shards[i] = Some(vec![0u8; len]);
        }
        proof {
            assert forall|j: int| 0 <= j < i + 1 implies #[trigger] opt_views(shards@)[j] == if orig[j] is None && (j < k || !data_only) {
                Some(Seq::new(len as nat, |p: int| 0u8))
            } else {
                old_views[j]
            } by {
                if j < i {
                    assert(opt_views(before)[j] == opt_views(shards@)[j]);
                } else if is_missing && (i < k || !data_only) {
                    assert(content(opt_views(shards@)[j]) =~= Seq::new(len as nat, |p: int| 0u8));
                }
            }
        }
        i = i + 1;
    }
    missing
}

impl ReedSolomon {
    /// Recover the missing data shards from the shards at `valid`, with
    /// `inv` the inverse of their encoding rows.
    pub(crate) fn recover_data(
        &self,
        shards: &mut [Option<Vec<u8>>],
        inv: &Matrix,
        valid: &[usize],
        missing: &[bool],
        len: usize,
    )
        requires
            self.wf(),
            self.family() == CodecFamily::Classic,
            inv.wf(),
            inv.rows() == self.data_count(),
            inv.cols() == self.data_count(),
            valid@.len() == self.data_count(),
            missing@.len() == old(shards)@.len(),
            old(shards)@.len() == self.data_count() + self.parity_count(),
            forall|c: int| 0 <= c < valid@.len() ==> #[trigger] valid@[c] < old(shards)@.len(),
            forall|c: int| 0 <= c < valid@.len() ==> !(#[trigger] missing@[valid@[c] as int]),
            forall|c: int| 0 <= c < valid@.len() ==> #[trigger] old(shards)@[valid@[c] as int] is Some,
            forall|c: int| 0 <= c < valid@.len() ==> #[trigger] content(opt_views(old(shards)@)[valid@[c] as int]).len() == len,
        ensures
            final(shards)@.len() == old(shards)@.len(),
            forall|i: int| 0 <= i < old(shards)@.len() ==> #[trigger] opt_views(final(shards)@)[i] == if i < self.data_count() && missing@[i] {
                Some(Seq::new(len as nat, |p: int| gather_byte(inv@[i], opt_views(old(shards)@), valid@, p)))
            } else {
                opt_views(old(shards)@)[i]
            },
    {
        proof {
            self.lemma_fields();
            inv.lemma_view();
        }
        let ghost start = opt_views(shards@);
        let k = self.data_shard_count;
        let mut i: usize = 0;
        while i < k
            invariant
                k == self.data_count(),
                inv.wf(),
                inv.rows() == k,
                inv.cols() == k,
                is_matrix(inv@, k as int, k as int),
                valid@.len() == k,
                k >= 1,
                missing@.len() == shards@.len(),
                shards@.len() == start.len(),
                start.len() >= k,
                forall|c: int| 0 <= c < k ==> #[trigger] valid@[c] < shards@.len(),
                forall|c: int| 0 <= c < k ==> !(#[trigger] missing@[valid@[c] as int]),
                forall|c: int| 0 <= c < k ==> #[trigger] start[valid@[c] as int] is Some,
                forall|c: int| 0 <= c < k ==> #[trigger] content(start[valid@[c] as int]).len() == len,
                i <= k,
                forall|j: int| 0 <= j < start.len() ==> #[trigger] opt_views(shards@)[j] == if j < i && missing@[j] {
                    Some(Seq::new(len as nat, |p: int| gather_byte(inv@[j], start, valid@, p)))
                } else {
                    start[j]
                },
            decreases k - i,
        {
            if missing[i] {
                let ghost cur = opt_views(shards@);
                proof {
                    assert forall|c: int| 0 <= c < k implies #[trigger] content(cur[valid@[c] as int]) == content(start[valid@[c] as int]) by {
                        assert(!missing@[valid@[c] as int]);
                    }
                    assert forall|c: int| 0 <= c < k implies #[trigger] shards@[valid@[c] as int] is Some by {
                        assert(!missing@[valid@[c] as int]);
                        assert(cur[valid@[c] as int] == start[valid@[c] as int]);
                    }
                    assert forall|c: int| 0 <= c < k implies #[trigger] content(opt_views(shards@)[valid@[c] as int]).len() == len by {
                        assert(content(cur[valid@[c] as int]) == content(start[valid@[c] as int]));
                    }
                }
                let out = gather_row(inv.get_row(i), shards, valid, len);
                proof {
                    assert forall|p: int| 0 <= p < len implies #[trigger] out@[p] == gather_byte(inv@[i as int], start, valid@, p) by {
                        lemma_gather_same(inv@[i as int], cur, start, valid@, p);
                    }
                }
                shards[i] = Some(out);
                proof {
                    assert forall|j: int| 0 <= j < start.len() implies #[trigger] opt_views(shards@)[j] == if j < i + 1 && missing@[j] {
                        Some(Seq::new(len as nat, |p: int| gather_byte(inv@[j], start, valid@, p)))
                    } else {
                        start[j]
                    } by {
                        if j == i {
                            assert(out@ =~= Seq::new(len as nat, |p: int| gather_byte(inv@[j], start, valid@, p)));
                        } else {
                            assert(opt_views(shards@)[j] == cur[j]);
                        }
                    }
                }
            }
            i = i + 1;
        }
    }

    /// Recompute each missing parity shard from the data shards, all present
    /// with `len` bytes.
    pub(crate) fn recover_parity(&self, shards: &mut [Option<Vec<u8>>], missing: &[bool], len: usize)
        requires
            self.wf(),
            self.family() == CodecFamily::Classic,
            missing@.len() == old(shards)@.len(),
            old(shards)@.len() == self.data_count() + self.parity_count(),
            forall|c: int| 0 <= c < self.data_count() ==> #[trigger] old(shards)@[c] is Some,
            forall|c: int| 0 <= c < self.data_count() ==> #[trigger] content(opt_views(old(shards)@)[c]).len() == len,
        ensures
            final(shards)@.len() == old(shards)@.len(),
            forall|i: int| 0 <= i < old(shards)@.len() ==> #[trigger] opt_views(final(shards)@)[i] == if i >= self.data_count() && missing@[i] {
                Some(Seq::new(len as nat, |p: int| gather_byte(self.matrix_view()[i], opt_views(old(shards)@), first_indices(self.data_count() as nat), p)))
            } else {
                opt_views(old(shards)@)[i]
            },
    {
        proof {
            self.lemma_fields();
            self.lemma_classic_matrix();
        }
        let ghost start = opt_views(shards@);
        let k = self.data_shard_count;
        let total = self.total_shard_count;
        let mut all_data: Vec<usize> = Vec::with_capacity(k);
        let mut c: usize = 0;
        while c < k
            invariant
                c <= k,
                all_data@ == first_indices(c as nat),
            decreases k - c,
        {
            all_data.push(c);
            c = c + 1;
            assert(all_data@ =~= first_indices(c as nat));
        }
        let ghost idx = first_indices(k as nat);
        let mut r: usize = k;
        while r < total
            invariant
                k == self.data_count(),
                total == self.data_count() + self.parity_count(),
                self.matrix.wf(),
                self.matrix.rows() == total,
                self.matrix.cols() == k,
                self.matrix_view() == self.matrix@,
                is_matrix(self.matrix_view(), total as int, k as int),
                k >= 1,
                all_data@ == idx,
                idx == first_indices(k as nat),
                missing@.len() == shards@.len(),
                shards@.len() == total,
                start.len() == total,
                forall|c: int| 0 <= c < k ==> #[trigger] start[c] is Some,
                forall|c: int| 0 <= c < k ==> #[trigger] content(start[c]).len() == len,
                k <= r <= total,
                forall|j: int| 0 <= j < total ==> #[trigger] opt_views(shards@)[j] == if k <= j < r && missing@[j] {
                    Some(Seq::new(len as nat, |p: int| gather_byte(self.matrix_view()[j], start, idx, p)))
                } else {
                    start[j]
                },
            decreases total - r,
        {
            if missing[r] {
                let ghost cur = opt_views(shards@);
                proof {
                    assert forall|c: int| 0 <= c < idx.len() implies #[trigger] content(cur[idx[c] as int]) == content(start[idx[c] as int]) by {
                        assert(idx[c] as int == c);
                    }
                    assert forall|c: int| 0 <= c < idx.len() implies #[trigger] idx[c] < shards@.len() by {}
                    assert forall|c: int| 0 <= c < idx.len() implies #[trigger] shards@[idx[c] as int] is Some by {
                        assert(idx[c] as int == c);
                        assert(cur[c] == start[c]);
                    }
                    assert forall|c: int| 0 <= c < idx.len() implies #[trigger] content(opt_views(shards@)[idx[c] as int]).len() == len by {
                        assert(idx[c] as int == c);
                        assert(cur[c] == start[c]);
                    }
                }
                let out = gather_row(self.matrix.get_row(r), shards, all_data.as_slice(), len);
                proof {
                    assert forall|p: int| 0 <= p < len implies #[trigger] out@[p] == gather_byte(self.matrix_view()[r as int], start, idx, p) by {
                        lemma_gather_same(self.matrix_view()[r as int], cur, start, idx, p);
                    }
                }
                shards[r] = Some(out);
                proof {
                    assert forall|j: int| 0 <= j < total implies #[trigger] opt_views(shards@)[j] == if k <= j < r + 1 && missing@[j] {
                        Some(Seq::new(len as nat, |p: int| gather_byte(self.matrix_view()[j], start, idx, p)))
                    } else {
                        start[j]
                    } by {
                        if j == r {
                            assert(out@ =~= Seq::new(len as nat, |p: int| gather_byte(self.matrix_view()[j], start, idx, p)));
                        } else {
                            assert(opt_views(shards@)[j] == cur[j]);
                        }
                    }
                }
            }
            r = r + 1;
        }
    }
}

impl ReedSolomon {
    /// Recover the missing shards once each one to recover holds a zeroed
    /// buffer: the data shards from the decode matrix `inv` of the shards at
    /// `valid`, then, unless `data_only`, the parity shards.
    pub(crate) fn finish_recovery(
        &self,
        shards: &mut [Option<Vec<u8>>],
        inv: &Matrix,
        valid: &[usize],
        missing: &[bool],
        shard_len: usize,
        data_only: bool,
        Ghost(start): Ghost<Seq<Option<Seq<u8>>>>,
    )
        requires
            self.wf(),
            self.family() == CodecFamily::Classic,
            start.len() == self.data_count() + self.parity_count(),
            old(shards)@.len() == start.len(),
            missing@.len() == start.len(),
            shard_len > 0,
            common_len(start) == shard_len,
            forall|i: int| 0 <= i < start.len() && start[i] is Some ==> #[trigger] content(start[i]).len() == shard_len,
            present_count(start, start.len()) >= self.data_count(),
            valid@ == present_prefix(start, start.len()).take(self.data_count() as int),
            inv.wf(),
            inv.rows() == self.data_count(),
            inv.cols() == self.data_count(),
            is_inverse(inv@, rows_at(self.matrix_view(), valid@), self.data_count() as nat),
            forall|i: int| 0 <= i < start.len() ==> #[trigger] missing@[i] == (start[i] is None),
            forall|i: int| 0 <= i < start.len() ==> #[trigger] opt_views(old(shards)@)[i] == if start[i] is None && (i < self.data_count() || !data_only) {
                Some(Seq::new(shard_len as nat, |p: int| 0u8))
            } else {
                start[i]
            },
        ensures
            final(shards)@.len() == old(shards)@.len(),
            recovered(
                self.matrix_view(),
                start,
                opt_views(final(shards)@),
                self.data_count() as nat,
                (self.data_count() + self.parity_count()) as nat,
                data_only,
            ),
    {
        let ghost old = start;
        proof {
            self.lemma_fields();
            self.lemma_classic_matrix();
            lemma_present_prefix(old, old.len());
        }
        let k = self.data_shard_count;
        let total = self.total_shard_count;
        let ghost v = valid@;
        let ghost after_init = opt_views(shards@);
        proof {
            assert forall|c: int| 0 <= c < k implies #[trigger] v[c] < total && old[v[c] as int] is Some by {
                assert(v[c] == present_prefix(old, total as nat)[c]);
            }
        }
        proof {
            assert forall|c: int| 0 <= c < k implies #[trigger] content(after_init[v[c] as int]) == content(old[v[c] as int]) by {
                assert(v[c] < total && old[v[c] as int] is Some);
            }
            assert forall|c: int| 0 <= c < valid@.len() implies !(#[trigger] missing@[valid@[c] as int]) by {
                assert(v[c] < total && old[v[c] as int] is Some);
            }
            assert forall|c: int| 0 <= c < valid@.len() implies #[trigger] shards@[valid@[c] as int] is Some by {
                assert(v[c] < total && old[v[c] as int] is Some);
                assert(after_init[v[c] as int] == old[v[c] as int]);
            }
            assert forall|c: int| 0 <= c < valid@.len() implies #[trigger] content(opt_views(shards@)[valid@[c] as int]).len() == shard_len by {
                assert(v[c] < total && old[v[c] as int] is Some);
                assert(after_init[v[c] as int] == old[v[c] as int]);
            }
        }
        self.recover_data(shards, inv, valid, missing, shard_len);
        let ghost after_data = opt_views(shards@);
        proof {
            assert forall|c: int| 0 <= c < k implies #[trigger] shards@[c] is Some by {
                assert(after_data[c] is Some);
            }
            assert forall|c: int| 0 <= c < k implies #[trigger] content(opt_views(shards@)[c]).len() == shard_len by {
                if !missing@[c] {
                    assert(after_data[c] == old[c]);
                }
            }
        }
        if !data_only {
            self.recover_parity(shards, missing, shard_len);
        }
        proof {
            let fin = opt_views(shards@);
            let m = self.matrix_view();
            assert forall|i: int| 0 <= i < total && old[i] is Some implies #[trigger] fin[i] == old[i] by {
                assert(!missing@[i]);
                assert(after_data[i] == after_init[i]);
            }
            assert forall|i: int| 0 <= i < k && old[i] is None implies filled_with(#[trigger] fin[i], shard_len as nat, |p: int| gather_byte(inv@[i], old, v, p)) by {
                assert(fin[i] == after_data[i]);
                assert forall|p: int| 0 <= p < shard_len implies #[trigger] content(fin[i])[p] == gather_byte(inv@[i], old, v, p) by {
                    lemma_gather_same(inv@[i], after_init, old, v, p);
                }
            }
            assert(is_inverse(inv@, rows_at(m, v), k as nat));
            inv.lemma_view();
            assert forall|r: int| k <= r < total && old[r] is None implies if data_only {
                #[trigger] fin[r] is None
            } else {
                filled_with(fin[r], shard_len as nat, |p: int| gather_byte(m[r], fin, first_indices(k as nat), p))
            } by {
                if !data_only {
                    assert forall|p: int| 0 <= p < shard_len implies #[trigger] content(fin[r])[p] == gather_byte(m[r], fin, first_indices(k as nat), p) by {
                        assert forall|c: int| 0 <= c < first_indices(k as nat).len() implies #[trigger] content(after_data[first_indices(k as nat)[c] as int]) == content(fin[first_indices(k as nat)[c] as int]) by {
                            assert(first_indices(k as nat)[c] as int == c);
                        }
                        lemma_gather_same(m[r], after_data, fin, first_indices(k as nat), p);
                    }
                } else {
                    assert(fin[r] == after_data[r]);
                }
            }
            assert(recovered(m, old, fin, k as nat, total as nat, data_only));
        }
    }

    /// The checks, then the recovery of the missing data shards and, unless
    /// `data_only`, of the missing parity shards.
    pub(crate) fn reconstruct_internal(&self, shards: &mut [Option<Vec<u8>>], data_only: bool) -> (r: Result<(), Error>)
        requires
            self.wf(),
        ensures
            final(shards)@.len() == old(shards)@.len(),
            self.family() != CodecFamily::Classic ==> r == Err::<(), Error>(Error::UnsupportedCodecFamily)
                && opt_views(final(shards)@) == opt_views(old(shards)@),
            self.family() == CodecFamily::Classic ==> reconstruct_outcome(
                self.matrix_view(),
                opt_views(old(shards)@),
                opt_views(final(shards)@),
                self.data_count() as nat,
                (self.data_count() + self.parity_count()) as nat,
                data_only,
                r,
            ),
    {
        proof {
            self.lemma_fields();
        }
        if self.codec_family != CodecFamily::Classic {
            return Err(Error::UnsupportedCodecFamily);
        }
        let k = self.data_shard_count;
        let total = self.total_shard_count;
        if shards.len() < total {
            return Err(Error::TooFewShards);
        }
        if shards.len() > total {
            return Err(Error::TooManyShards);
        }
        let (number_present, shard_len) = match scan_shards(shards) {
            Ok(x) => x,
            Err(e) => return Err(e),
        };
        if number_present == total {
            return Ok(());
        }
        if number_present < k {
            return Err(Error::TooFewShardsPresent);
        }
        let ghost old = opt_views(shards@);
        proof {
            lemma_present_prefix(old, total as nat);
            self.lemma_classic_matrix();
        }
        let valid = first_present(shards, k);
        let ghost v = valid@;
        proof {
            assert forall|c: int| 0 <= c < k implies #[trigger] v[c] < total && old[v[c] as int] is Some by {
                assert(v[c] == present_prefix(old, total as nat)[c]);
            }
        }
        let inv = match self.get_data_decode_matrix(valid.as_slice()) {
            Ok(m) => m,
            Err(e) => return Err(e),
        };
        let missing = init_missing(shards, k, data_only, shard_len);
        self.finish_recovery(shards, &inv, valid.as_slice(), missing.as_slice(), shard_len, data_only, Ghost(old));
        Ok(())
    }

    /// Recover the missing shards, data and parity. Refused, with the shards
    /// unchanged, for a non-classic codec, a wrong shard count, present shards
    /// of different or zero length, or fewer shards present than data shards.
    pub fn reconstruct(&self, shards: &mut [Option<Vec<u8>>]) -> (r: Result<(), Error>)
        requires
            self.wf(),
        ensures
            final(shards)@.len() == old(shards)@.len(),
            self.family() != CodecFamily::Classic ==> r == Err::<(), Error>(Error::UnsupportedCodecFamily)
                && opt_views(final(shards)@) == opt_views(old(shards)@),
            self.family() == CodecFamily::Classic ==> reconstruct_outcome(
                self.matrix_view(),
                opt_views(old(shards)@),
                opt_views(final(shards)@),
                self.data_count() as nat,
                (self.data_count() + self.parity_count()) as nat,
                false,
                r,
            ),
    {
        self.reconstruct_internal(shards, false)
    }

    /// Recover the missing data shards only; missing parity shards stay
    /// missing. Refused as `reconstruct` is.
    pub fn reconstruct_data(&self, shards: &mut [Option<Vec<u8>>]) -> (r: Result<(), Error>)
        requires
            self.wf(),
        ensures
            final(shards)@.len() == old(shards)@.len(),
            self.family() != CodecFamily::Classic ==> r == Err::<(), Error>(Error::UnsupportedCodecFamily)
                && opt_views(final(shards)@) == opt_views(old(shards)@),
            self.family() == CodecFamily::Classic ==> reconstruct_outcome(
                self.matrix_view(),
                opt_views(old(shards)@),
                opt_views(final(shards)@),
                self.data_count() as nat,
                (self.data_count() + self.parity_count()) as nat,
                true,
                r,
            ),
    {
        self.reconstruct_internal(shards, true)
    }
}

/// `old` holds some of the shards of `full`, each present one unchanged.
pub open spec fn erasure_of(old: Seq<Option<Seq<u8>>>, full: Seq<Seq<u8>>) -> bool {
    &&& old.len() == full.len()
    &&& forall|i: int| 0 <= i < full.len() ==> #[trigger] old[i] is None || old[i] == Some(full[i])
}

/// Row `i` of the inverse of the encoding rows at `v`, applied to the shards
/// at `v` of an encoded set of shards, gives back data shard `i`.
proof fn lemma_decode_entry(
    m: Seq<Seq<u8>>,
    full: Seq<Seq<u8>>,
    inv: Seq<Seq<u8>>,
    v: Seq<usize>,
    k: nat,
    total: nat,
    len: nat,
    i: int,
    p: int,
)
    requires
        is_matrix(m, total as int, k as int),
        is_systematic(m, k),
        k <= total,
        full.len() == total,
        uniform(full, len),
        0 <= p < len,
        is_encoded(m, full, k, total),
        v.len() == k,
        forall|j: int| 0 <= j < k ==> #[trigger] v[j] < total,
        is_matrix(inv, k as int, k as int),
        is_inverse(inv, rows_at(m, v), k),
        0 <= i < k,
    ensures
        xsum(k, |j: int| gf_mul(inv[i][j], full[v[j] as int][p])) == full[i][p],
{
    let s = rows_at(m, v);
    let d = |c: int| full[c][p];
    let x = |j: int| full[v[j] as int][p];
    let inner = |j: int| xsum(k, |c: int| gf_mul(s[j][c], d(c)));
    assert forall|j: int| 0 <= j < k implies #[trigger] x(j) == inner(j) by {
        let row = v[j] as int;
        if row >= k {
            assert(full[row][p] == code_byte(m[row], full, k, p));
            lemma_xsum_ext(k, |c: int| gf_mul(m[row][c], full[c][p]), |c: int| gf_mul(s[j][c], d(c)));
        } else {
            let f = |c: int| gf_mul(s[j][c], d(c));
            assert forall|c: int| 0 <= c < k && c != row implies #[trigger] f(c) == 0 by {
                assert(m[row][c] == id_entry(row, c));
                lemma_mul_identity(d(c));
            }
            assert(m[row][row] == id_entry(row, row));
            lemma_mul_identity(d(row));
            lemma_xsum_single(k, f, row);
        }
    }
    let f2 = |j: int, c: int| gf_mul(inv[i][j], gf_mul(s[j][c], d(c)));
    let outer = |j: int| gf_mul(inv[i][j], x(j));
    let outer2 = |j: int| xsum(k, |c: int| f2(j, c));
    assert forall|j: int| 0 <= j < k implies #[trigger] outer(j) == outer2(j) by {
        lemma_xsum_scale(k, inv[i][j], |c: int| gf_mul(s[j][c], d(c)), |c: int| f2(j, c));
    }
    lemma_xsum_ext(k, outer, outer2);
    lemma_xsum_exchange(k, k, f2);
    let swapped = |c: int| xsum(k, |j: int| f2(j, c));
    let term = |c: int| gf_mul(d(c), id_entry(i, c));
    assert forall|c: int| 0 <= c < k implies #[trigger] swapped(c) == term(c) by {
        let g = |j: int| gf_mul(inv[i][j], s[j][c]);
        assert forall|j: int| 0 <= j < k implies #[trigger] f2(j, c) == gf_mul(d(c), g(j)) by {
            lemma_mul_associative(inv[i][j], s[j][c], d(c));
            lemma_mul_commutative(g(j), d(c));
        }
        lemma_xsum_scale(k, d(c), g, |j: int| f2(j, c));
        assert(xsum(k, g) == prod_entry(inv, s, k, i, c));
    }
    lemma_xsum_ext(k, swapped, term);
    assert forall|c: int| 0 <= c < k && c != i implies #[trigger] term(c) == 0 by {
        lemma_mul_identity(d(c));
    }
    lemma_mul_identity(d(i));
    lemma_xsum_single(k, term, i);
    lemma_xsum_ext(k, |j: int| gf_mul(inv[i][j], full[v[j] as int][p]), outer);
}

/// Distinct rows of a Vandermonde matrix, as many as it has columns, form a
/// non-singular matrix: a vector they sent to zero would be a polynomial with
/// as many roots as coefficients.
pub proof fn lemma_vandermonde_rows_nonsingular(rows: nat, n: nat, v: Seq<usize>)
    requires
        rows <= 256,
        v.len() == n,
        forall|j: int| 0 <= j < n ==> #[trigger] v[j] < rows,
        forall|i: int, j: int| 0 <= i < j < n ==> #[trigger] v[i] != #[trigger] v[j],
    ensures
        !singular(rows_at(vandermonde_spec(rows, n), v), n),
{
    let a = rows_at(vandermonde_spec(rows, n), v);
    if singular(a, n) {
        let x = choose|x: Seq<u8>| #[trigger] kernel_vector(a, n, x);
        let pts = Seq::new(n, |j: int| v[j] as u8);
        assert forall|i: int, j: int| 0 <= i < j < n implies #[trigger] pts[i] != #[trigger] pts[j] by {
            assert(v[i] != v[j]);
            assert(v[i] < 256 && v[j] < 256);
        }
        assert forall|j: int| 0 <= j < n implies #[trigger] eval_poly(x, n, pts[j]) == 0 by {
            assert(dot(a[j], x, n) == 0);
            assert forall|l: int| 0 <= l < n implies #[trigger] gf_mul(a[j][l], x[l]) == gf_mul(x[l], gf_pow(pts[j], l as nat)) by {
                assert(v[j] < 256);
                assert(a[j][l] == gf_pow(pts[j], l as nat));
                lemma_mul_commutative(a[j][l], x[l]);
            }
            lemma_xsum_ext(n, |l: int| gf_mul(a[j][l], x[l]), |c: int| gf_mul(x[c], gf_pow(pts[j], c as nat)));
        }
        lemma_poly_roots(x, n, pts);
        let i0 = choose|i: int| 0 <= i < n && #[trigger] x[i] != 0;
        assert(x[i0] == 0);
    }
}

/// The rows at distinct indices of a Vandermonde code form a non-singular
/// matrix: the code's matrix is the Vandermonde matrix times an invertible one.
pub proof fn lemma_vandermonde_code_rows_nonsingular(m: Seq<Seq<u8>>, k: nat, total: nat, v: Seq<usize>)
    requires
        is_vandermonde_code(m, k, total),
        total <= 256,
        v.len() == k,
        forall|j: int| 0 <= j < k ==> #[trigger] v[j] < total,
        forall|i: int, j: int| 0 <= i < j < k ==> #[trigger] v[i] != #[trigger] v[j],
    ensures
        !singular(rows_at(m, v), k),
{
    let vm = vandermonde_spec(total, k);
    let top = sub_matrix_spec(vm, 0, 0, k as int, k as int);
    let inv = choose|inv: Seq<Seq<u8>>|
        is_matrix(inv, k as int, k as int) && #[trigger] is_inverse(inv, top, k) && m == mat_mul(vm, inv, k, k);
    lemma_vandermonde_rows_nonsingular(total, k, v);
    let rm = rows_at(m, v);
    if singular(rm, k) {
        let x = choose|x: Seq<u8>| #[trigger] kernel_vector(rm, k, x);
        let xm = Seq::new(k, |l: int| seq![x[l]]);
        let y = Seq::new(k, |t: int| prod_entry(inv, xm, k, t, 0));
        let rv = rows_at(vm, v);
        assert forall|j: int| 0 <= j < k implies #[trigger] dot(rv[j], y, k) == 0 by {
            let r = v[j] as int;
            assert(dot(rm[j], x, k) == 0);
            lemma_assoc_entry(vm, inv, xm, k, r, 0);
            lemma_xsum_ext(k, |l: int| gf_mul(vm[r][l], prod_entry(inv, xm, k, l, 0)), |l: int| gf_mul(rv[j][l], y[l]));
            lemma_xsum_ext(k, |t: int| gf_mul(prod_entry(vm, inv, k, r, t), xm[t][0]), |l: int| gf_mul(rm[j][l], x[l]));
        }
        let i0 = choose|i: int| 0 <= i < k && #[trigger] x[i] != 0;
        assert(exists|t: int| 0 <= t < k && #[trigger] y[t] != 0) by {
            if forall|t: int| 0 <= t < k ==> #[trigger] y[t] == 0 {
                lemma_assoc_entry(top, inv, xm, k, i0, 0);
                assert forall|l: int| 0 <= l < k implies #[trigger] gf_mul(top[i0][l], prod_entry(inv, xm, k, l, 0)) == 0 by {
                    assert(y[l] == 0);
                    lemma_mul_identity(top[i0][l]);
                }
                lemma_xsum_zero(k, |l: int| gf_mul(top[i0][l], prod_entry(inv, xm, k, l, 0)));
                assert forall|t: int| 0 <= t < k implies #[trigger] prod_entry(top, inv, k, i0, t) == id_entry(i0, t) by {}
                lemma_xsum_ext(
                    k,
                    |t: int| gf_mul(prod_entry(top, inv, k, i0, t), xm[t][0]),
                    |t: int| gf_mul(id_entry(i0, t), (|l: int| x[l])(t)),
                );
                lemma_times_identity(k, |l: int| x[l], i0);
                assert(false);
            }
        }
        assert(kernel_vector(rv, k, y));
    }
}

/// A recovery has one outcome: two results that both recover the shards
/// `old` are the same shards.
pub proof fn lemma_recovered_unique(
    m: Seq<Seq<u8>>,
    old: Seq<Option<Seq<u8>>>,
    f1: Seq<Option<Seq<u8>>>,
    f2: Seq<Option<Seq<u8>>>,
    k: nat,
    total: nat,
    data_only: bool,
)
    requires
        0 < k <= total,
        old.len() == total,
        recovered(m, old, f1, k, total, data_only),
        recovered(m, old, f2, k, total, data_only),
    ensures
        f1 == f2,
{
    let v = present_prefix(old, total).take(k as int);
    let len = common_len(old);
    let inv1 = choose|inv: Seq<Seq<u8>>| {
        &&& is_matrix(inv, k as int, k as int)
        &&& #[trigger] is_inverse(inv, rows_at(m, v), k)
        &&& forall|i: int| 0 <= i < k && old[i] is None ==> filled_with(#[trigger] f1[i], len, |p: int| gather_byte(inv[i], old, v, p))
    };
    let inv2 = choose|inv: Seq<Seq<u8>>| {
        &&& is_matrix(inv, k as int, k as int)
        &&& #[trigger] is_inverse(inv, rows_at(m, v), k)
        &&& forall|i: int| 0 <= i < k && old[i] is None ==> filled_with(#[trigger] f2[i], len, |p: int| gather_byte(inv[i], old, v, p))
    };
    lemma_inverse_unique(inv1, inv2, rows_at(m, v), k);
    assert forall|i: int| 0 <= i < k implies #[trigger] f1[i] == f2[i] by {
        if old[i] is None {
            assert(filled_with(f1[i], len, |p: int| gather_byte(inv1[i], old, v, p)));
            assert(filled_with(f2[i], len, |p: int| gather_byte(inv2[i], old, v, p)));
            assert(inv1[i] =~= inv2[i]) by {
                assert forall|j: int| 0 <= j < k implies inv1[i][j] == inv2[i][j] by {}
            }
            assert(content(f1[i]) =~= content(f2[i]));
        }
    }
    assert forall|r: int| k <= r < total implies #[trigger] f1[r] == f2[r] by {
        if old[r] is None && !data_only {
            assert(filled_with(f1[r], len, |p: int| gather_byte(m[r], f1, first_indices(k), p)));
            assert(filled_with(f2[r], len, |p: int| gather_byte(m[r], f2, first_indices(k), p)));
            assert forall|p: int| 0 <= p < len implies #[trigger] content(f1[r])[p] == content(f2[r])[p] by {
                assert forall|c: int| 0 <= c < first_indices(k).len() implies #[trigger] content(f1[first_indices(k)[c] as int])
                    == content(f2[first_indices(k)[c] as int]) by {
                    assert(f1[c] == f2[c]);
                }
                lemma_gather_same(m[r], f1, f2, first_indices(k), p);
            }
            assert(content(f1[r]) =~= content(f2[r]));
        }
    }
    assert(f1 =~= f2);
}

/// Reconstructing with a workspace prepared for the shards gives the shards
/// that `reconstruct` gives: when `reconstruct_opt_with_workspace` recovers
/// `old` into `fin_ws`, `reconstruct` on the same shards succeeds and leaves
/// the same shards, for shards that pass the checks of both.
pub proof fn lemma_workspace_matches_reconstruct(
    rs: ReedSolomon,
    old: Seq<Option<Seq<u8>>>,
    fin_ws: Seq<Option<Seq<u8>>>,
    fin: Seq<Option<Seq<u8>>>,
    r: Result<(), Error>,
)
    requires
        rs.wf(),
        rs.family() == CodecFamily::Classic,
        old.len() == rs.data_count() + rs.parity_count(),
        present_count(old, old.len() as nat) < old.len(),
        reconstruct_error(old, old.len() as int, rs.data_count() as int) is None,
        recovered(rs.matrix_view(), old, fin_ws, rs.data_count() as nat, old.len() as nat, false),
        reconstruct_outcome(rs.matrix_view(), old, fin, rs.data_count() as nat, old.len() as nat, false, r),
    ensures
        r is Ok,
        fin == fin_ws,
{
    let k = rs.data_count() as nat;
    let total = old.len() as nat;
    let m = rs.matrix_view();
    rs.lemma_classic_matrix();
    let v = present_prefix(old, total).take(k as int);
    let inv = choose|inv: Seq<Seq<u8>>| {
        &&& is_matrix(inv, k as int, k as int)
        &&& #[trigger] is_inverse(inv, rows_at(m, v), k)
        &&& forall|i: int| 0 <= i < k && old[i] is None ==> filled_with(#[trigger] fin_ws[i], common_len(old), |p: int| gather_byte(inv[i], old, v, p))
    };
    if singular(rows_at(m, v), k) {
        lemma_singular_no_left_inverse(rows_at(m, v), k);
        assert(!is_left_inverse(inv, rows_at(m, v), k));
    }
    assert(r is Ok);
    lemma_recovered_unique(m, old, fin, fin_ws, k, total, false);
}

/// The decode matrix of a set of shards present is unique: two `k` by `k`
/// inverses of the encoding rows of the same shards are the same matrix, so
/// every way of getting it (computed afresh or kept from an earlier call)
/// gives the same result.
pub proof fn lemma_decode_matrix_unique(rs: ReedSolomon, valid: Seq<usize>, d1: Seq<Seq<u8>>, d2: Seq<Seq<u8>>)
    requires
        is_matrix(d1, rs.data_count() as int, rs.data_count() as int),
        is_matrix(d2, rs.data_count() as int, rs.data_count() as int),
        is_inverse(d1, rows_at(rs.matrix_view(), valid), rs.data_count() as nat),
        is_inverse(d2, rows_at(rs.matrix_view(), valid), rs.data_count() as nat),
    ensures
        d1 == d2,
{
    let k = rs.data_count() as nat;
    lemma_inverse_unique(d1, d2, rows_at(rs.matrix_view(), valid), k);
    assert forall|i: int| 0 <= i < k implies #[trigger] d1[i] =~= d2[i] by {
        assert forall|j: int| 0 <= j < k implies #[trigger] d1[i][j] == d2[i][j] by {}
    }
    assert(d1 =~= d2);
}

/// With a code that loses nothing, the encoding rows of the first `k` shards
/// present form a non-singular matrix.
pub(crate) proof fn lemma_first_present_nonsingular(rs: ReedSolomon, old: Seq<Option<Seq<u8>>>)
    requires
        rs.wf(),
        rs.family() == CodecFamily::Classic,
        is_mds_code(rs.matrix_view(), rs.data_count() as nat, (rs.data_count() + rs.parity_count()) as nat),
        old.len() == rs.data_count() + rs.parity_count(),
        present_count(old, old.len() as nat) >= rs.data_count(),
    ensures
        !singular(rows_at(rs.matrix_view(), present_prefix(old, old.len() as nat).take(rs.data_count() as int)), rs.data_count() as nat),
{
    let k = rs.data_count() as nat;
    let total = old.len() as nat;
    rs.lemma_classic_matrix();
    lemma_present_prefix(old, total);
    let v = present_prefix(old, total).take(k as int);
    assert forall|i: int, j: int| 0 <= i < j < k implies #[trigger] v[i] != #[trigger] v[j] by {
        assert(present_prefix(old, total)[i] < present_prefix(old, total)[j]);
    }
    lemma_mds_rows_nonsingular(rs.matrix_view(), k, total, v);
}

/// Reconstruction gives back what was encoded: when the shards handed to a
/// classic codec are an encoded set of shards with some missing, too few
/// present is the only check that can fail; a successful reconstruction
/// restores every shard (all but the missing parity shards when only data is
/// recovered, which stay missing), and the only other outcome is a singular
/// decode matrix, which a code that loses nothing (every codec `with_options`
/// builds) never has: with one, any `data_shard_count` shards present are enough.
pub proof fn lemma_reconstruct_recovers(
    rs: ReedSolomon,
    full: Seq<Seq<u8>>,
    old: Seq<Option<Seq<u8>>>,
    fin: Seq<Option<Seq<u8>>>,
    data_only: bool,
    r: Result<(), Error>,
)
    requires
        rs.wf(),
        rs.family() == CodecFamily::Classic,
        full.len() == rs.data_count() + rs.parity_count(),
        full[0].len() > 0,
        uniform(full, full[0].len()),
        is_encoded(rs.matrix_view(), full, rs.data_count() as nat, (rs.data_count() + rs.parity_count()) as nat),
        erasure_of(old, full),
        reconstruct_outcome(
            rs.matrix_view(),
            old,
            fin,
            rs.data_count() as nat,
            (rs.data_count() + rs.parity_count()) as nat,
            data_only,
            r,
        ),
    ensures
        present_count(old, full.len()) < rs.data_count() ==> r == Err::<(), Error>(Error::TooFewShardsPresent) && fin == old,
        present_count(old, full.len()) >= rs.data_count() ==> r is Ok || (r == Err::<(), Error>(Error::InvalidCustomMatrix)
            && singular(rows_at(rs.matrix_view(), present_prefix(old, full.len() as nat).take(rs.data_count() as int)), rs.data_count() as nat)),
        present_count(old, full.len()) >= rs.data_count()
            && is_mds_code(rs.matrix_view(), rs.data_count() as nat, full.len() as nat) ==> r is Ok,
        r is Ok ==> forall|i: int| 0 <= i < full.len() ==> #[trigger] fin[i] == if data_only && i >= rs.data_count() && old[i] is None {
            None::<Seq<u8>>
        } else {
            Some(full[i])
        },
{
    let k = rs.data_count() as nat;
    let total = (rs.data_count() + rs.parity_count()) as nat;
    let m = rs.matrix_view();
    let len = full[0].len();
    rs.lemma_classic_matrix();
    if present_count(old, total) >= k && is_mds_code(m, k, total) {
        lemma_first_present_nonsingular(rs, old);
    }
    assert(lengths_error(old) is None) by {
        assert forall|i: int| 0 <= i < old.len() && #[trigger] old[i] is Some implies content(old[i]).len() == len by {
            assert(old[i] == Some(full[i]));
        }
    }
    lemma_present_prefix(old, total);
    if present_count(old, total) == total {
        assert forall|i: int| 0 <= i < total implies #[trigger] old[i] is Some by {
            if old[i] is None {
                lemma_present_count_missing(old, total, i);
            }
        }
    } else if present_count(old, total) >= k && r is Ok {
        lemma_recovered_restores(rs, full, old, fin, data_only);
    }
}

/// What a recovery produces from an encoded set of shards with some
/// missing: every shard of the set, but for the missing parity shards when
/// only data is recovered, which stay missing.
pub proof fn lemma_recovered_restores(
    rs: ReedSolomon,
    full: Seq<Seq<u8>>,
    old: Seq<Option<Seq<u8>>>,
    fin: Seq<Option<Seq<u8>>>,
    data_only: bool,
)
    requires
        rs.wf(),
        rs.family() == CodecFamily::Classic,
        full.len() == rs.data_count() + rs.parity_count(),
        full[0].len() > 0,
        uniform(full, full[0].len()),
        is_encoded(rs.matrix_view(), full, rs.data_count() as nat, (rs.data_count() + rs.parity_count()) as nat),
        erasure_of(old, full),
        present_count(old, full.len()) >= rs.data_count(),
        recovered(rs.matrix_view(), old, fin, rs.data_count() as nat, (rs.data_count() + rs.parity_count()) as nat, data_only),
    ensures
        forall|i: int| 0 <= i < full.len() ==> #[trigger] fin[i] == if data_only && i >= rs.data_count() && old[i] is None {
            None::<Seq<u8>>
        } else {
            Some(full[i])
        },
{
    let k = rs.data_count() as nat;
    let total = (rs.data_count() + rs.parity_count()) as nat;
    let m = rs.matrix_view();
    let len = full[0].len();
    rs.lemma_classic_matrix();
    lemma_present_prefix(old, total);
    {
        let v = present_prefix(old, total).take(k as int);
        let inv = choose|inv: Seq<Seq<u8>>| {
            &&& is_matrix(inv, k as int, k as int)
            &&& #[trigger] is_inverse(inv, rows_at(m, v), k)
            &&& forall|i: int| 0 <= i < k && old[i] is None ==> filled_with(#[trigger] fin[i], common_len(old), |p: int| gather_byte(inv[i], old, v, p))
        };
        let w = present_prefix(old, total)[0] as int;
        assert(0 <= w < old.len() && old[w] is Some);
        let c0 = choose|i: int| 0 <= i < old.len() && #[trigger] old[i] is Some;
        assert(old[c0] == Some(full[c0]));
        assert(common_len(old) == len);
        assert forall|j: int| 0 <= j < k implies #[trigger] v[j] < total && old[v[j] as int] == Some(full[v[j] as int]) by {
            assert(v[j] == present_prefix(old, total)[j]);
        }
        assert forall|i: int| 0 <= i < k implies #[trigger] fin[i] == Some(full[i]) by {
            if old[i] is None {
                assert(filled_with(fin[i], len, |p: int| gather_byte(inv[i], old, v, p)));
                assert forall|p: int| 0 <= p < len implies #[trigger] content(fin[i])[p] == full[i][p] by {
                    lemma_decode_entry(m, full, inv, v, k, total, len, i, p);
                    lemma_xsum_ext(
                        k,
                        |j: int| gf_mul(inv[i][j], content(old[v[j] as int])[p]),
                        |j: int| gf_mul(inv[i][j], full[v[j] as int][p]),
                    );
                }
                assert(content(fin[i]) =~= full[i]);
            } else {
                assert(old[i] == Some(full[i]));
            }
        }
        assert forall|i: int| k <= i < total && !(data_only && old[i] is None) implies #[trigger] fin[i] == Some(full[i]) by {
            if old[i] is None {
                assert(filled_with(fin[i], len, |p: int| gather_byte(m[i], fin, first_indices(k), p)));
                assert forall|p: int| 0 <= p < len implies #[trigger] content(fin[i])[p] == full[i][p] by {
                    assert(full[i][p] == code_byte(m[i], full, k, p));
                    assert forall|c: int| 0 <= c < k implies #[trigger] content(fin[first_indices(k)[c] as int]) == full[c] by {
                        assert(first_indices(k)[c] as int == c);
                        assert(fin[c] == Some(full[c]));
                    }
                    lemma_xsum_ext(
                        k,
                        |c: int| gf_mul(m[i][c], content(fin[first_indices(k)[c] as int])[p]),
                        |c: int| gf_mul(m[i][c], full[c][p]),
                    );
                }
                assert(content(fin[i]) =~= full[i]);
            } else {
                assert(old[i] == Some(full[i]));
            }
        }
    }
}

/// Fewer shards present than shards, when one of them is missing.
pub(crate) proof fn lemma_present_count_missing(s: Seq<Option<Seq<u8>>>, n: nat, i: int)
    requires
        0 <= i < n,
        s[i] is None,
    ensures
        present_count(s, n) < n,
    decreases n,
{
    if i < n - 1 {
        lemma_present_count_missing(s, (n - 1) as nat, i);
    } else {
        lemma_present_count_le(s, (n - 1) as nat);
    }
}

/// At most `n` of the first `n` shards are present.
proof fn lemma_present_count_le(s: Seq<Option<Seq<u8>>>, n: nat)
    ensures
        present_count(s, n) <= n,
    decreases n,
{
    if n > 0 {
        lemma_present_count_le(s, (n - 1) as nat);
    }
}

/// The required mask over all shards: as given when it has a flag per shard,
/// else (a flag per data shard) extended with `false` for the parity shards.
pub open spec fn normalized_required(req: Seq<bool>, k: nat, total: nat) -> Seq<bool> {
    if req.len() == total {
        req
    } else {
        Seq::new(total, |i: int| if i < k { req[i] } else { false })
    }
}

/// Every shard required is a data shard.
pub open spec fn requires_data_only(req: Seq<bool>, k: nat) -> bool {
    forall|i: int| 0 <= i < req.len() && #[trigger] req[i] ==> i < k
}

/// The outcome of `reconstruct_some` from `old` to `fin` with the mask
/// `req`: a mask of the wrong length is refused, then the checks of
/// `reconstruct` apply; with every shard present, or when only data shards are
/// required and none of them is missing, nothing changes; else each required
/// missing shard becomes what reconstruction (of the data only, when only data
/// shards are required) recovers for it, the other shards unchanged, unless
/// the decode matrix is singular, which changes nothing.
pub open spec fn reconstruct_some_outcome(
    m: Seq<Seq<u8>>,
    old: Seq<Option<Seq<u8>>>,
    fin: Seq<Option<Seq<u8>>>,
    req: Seq<bool>,
    k: nat,
    total: nat,
    r: Result<(), Error>,
) -> bool {
    if req.len() != total && req.len() != k {
        r == Err::<(), Error>(Error::InvalidShardFlags) && fin == old
    } else {
        let req = normalized_required(req, k, total);
        let data_only = requires_data_only(req, k);
        match reconstruct_error(old, total as int, k as int) {
            Some(e) => r == Err::<(), Error>(e) && fin == old,
            None => if present_count(old, total) == total || (data_only && forall|i: int| 0 <= i < k && #[trigger] req[i] ==> old[i] is Some) {
                r is Ok && fin == old
            } else {
                ||| (r is Ok && exists|work: Seq<Option<Seq<u8>>>| #[trigger] recovered(m, old, work, k, total, data_only)
                    && forall|i: int| 0 <= i < total ==> #[trigger] fin[i] == if old[i] is None && req[i] { work[i] } else { old[i] })
                ||| (r == Err::<(), Error>(Error::InvalidCustomMatrix) && fin == old
                    && singular(rows_at(m, present_prefix(old, total).take(k as int)), k))
            },
        }
    }
}

/// A copy of a shard's bytes.
fn copy_bytes(v: &Vec<u8>) -> (r: Vec<u8>)
    ensures
        r@ == v@,
{
    let mut r: Vec<u8> = Vec::with_capacity(v.len());
    let mut i: usize = 0;
    while i < v.len()
        invariant
            i <= v@.len(),
            r@ == v@.subrange(0, i as int),
        decreases v@.len() - i,
    {
        r.push(v[i]);
        i = i + 1;
        assert(r@ =~= v@.subrange(0, i as int));
    }
    assert(v@.subrange(0, v@.len() as int) =~= v@);
    r
}

/// A copy of the shards.
fn copy_shards(shards: &[Option<Vec<u8>>]) -> (r: Vec<Option<Vec<u8>>>)
    ensures
        opt_views(r@) == opt_views(shards@),
{
    let mut r: Vec<Option<Vec<u8>>> = Vec::with_capacity(shards.len());
    let mut i: usize = 0;
    while i < shards.len()
        invariant
            i <= shards@.len(),
            r@.len() == i,
            forall|j: int| 0 <= j < i ==> #[trigger] opt_views(r@)[j] == opt_views(shards@)[j],
        decreases shards@.len() - i,
    {
        let c = match &shards[i] {
            Some(v) => Some(copy_bytes(v)),
            None => None,
        };
        assert(opt_views(seq![c])[0] == opt_views(shards@)[i as int]);
        let ghost before = r@;
        r.push(c);
        proof {
            assert forall|j: int| 0 <= j < i + 1 implies #[trigger] opt_views(r@)[j] == opt_views(shards@)[j] by {
                if j < i {
                    assert(r@[j] == before[j]);
                    assert(opt_views(before)[j] == opt_views(shards@)[j]);
                } else {
                    assert(r@[j] == c);
                }
            }
        }
        i = i + 1;
    }
    assert(opt_views(r@) =~= opt_views(shards@));
    r
}

/// The required mask over all shards, or `None` for a mask of the wrong length.
pub(crate) fn normalize_required(required: &[bool], k: usize, total: usize) -> (r: Option<Vec<bool>>)
    requires
        k <= total,
    ensures
        required@.len() != total && required@.len() != k ==> r is None,
        required@.len() == total || required@.len() == k ==> (r matches Some(v) && v@ == normalized_required(required@, k as nat, total as nat)),
{
    if required.len() == total {
        let mut v: Vec<bool> = Vec::with_capacity(total);
        let mut i: usize = 0;
        while i < total
            invariant
                required@.len() == total,
                i <= total,
                v@ == required@.subrange(0, i as int),
            decreases total - i,
        {
            v.push(required[i]);
            i = i + 1;
            assert(v@ =~= required@.subrange(0, i as int));
        }
        assert(v@ =~= required@);
        Some(v)
    } else if required.len() == k {
        let mut v: Vec<bool> = Vec::with_capacity(total);
        let mut i: usize = 0;
        while i < total
            invariant
                required@.len() == k,
                k <= total,
                i <= total,
                v@.len() == i,
                forall|j: int| 0 <= j < i ==> #[trigger] v@[j] == if j < k { required@[j] } else { false },
            decreases total - i,
        {
            if i < k {
                v.push(required[i]);
            } else {
                v.push(false);
            }
            i = i + 1;
        }
        assert(v@ =~= normalized_required(required@, k as nat, total as nat));
        Some(v)
    } else {
        None
    }
}

impl ReedSolomon {
    /// Recover only the shards marked in `required` (a flag per shard, or per
    /// data shard). When only data shards are required they are computed
    /// directly from the decode matrix; otherwise a copy of the shards is
    /// reconstructed and the required missing shards are taken from it.
    #[verifier::rlimit(40)]
    pub fn reconstruct_some(&self, shards: &mut [Option<Vec<u8>>], required: &[bool]) -> (r: Result<(), Error>)
        requires
            self.wf(),
        ensures
            final(shards)@.len() == old(shards)@.len(),
            self.family() != CodecFamily::Classic ==> r == Err::<(), Error>(Error::UnsupportedCodecFamily)
                && opt_views(final(shards)@) == opt_views(old(shards)@),
            self.family() == CodecFamily::Classic ==> reconstruct_some_outcome(
                self.matrix_view(),
                opt_views(old(shards)@),
                opt_views(final(shards)@),
                required@,
                self.data_count() as nat,
                (self.data_count() + self.parity_count()) as nat,
                r,
            ),
    {
        proof {
            self.lemma_fields();
        }
        if self.codec_family != CodecFamily::Classic {
            return Err(Error::UnsupportedCodecFamily);
        }
        let k = self.data_shard_count;
        let total = self.total_shard_count;
        let req = match normalize_required(required, k, total) {
            Some(v) => v,
            None => return Err(Error::InvalidShardFlags),
        };
        if shards.len() < total {
            return Err(Error::TooFewShards);
        }
        if shards.len() > total {
            return Err(Error::TooManyShards);
        }
        let (number_present, shard_len) = match scan_shards(shards) {
            Ok(x) => x,
            Err(e) => return Err(e),
        };
        if number_present == total {
            return Ok(());
        }
        if number_present < k {
            return Err(Error::TooFewShardsPresent);
        }
        let ghost old = opt_views(shards@);
        let ghost nreq = req@;
        proof {
            lemma_present_prefix(old, total as nat);
            self.lemma_classic_matrix();
        }
        let mut required_data_only = true;
        let mut i: usize = 0;
        while i < total
            invariant
                req@ == nreq,
                nreq.len() == total,
                i <= total,
                required_data_only == forall|j: int| 0 <= j < i && #[trigger] nreq[j] ==> j < k,
            decreases total - i,
        {
            if req[i] && i >= k {
                required_data_only = false;
            }
            i = i + 1;
        }
        if required_data_only {
            let mut want: Vec<bool> = Vec::with_capacity(total);
            let mut any_wanted = false;
            let mut i: usize = 0;
            while i < total
                invariant
                    req@ == nreq,
                    nreq.len() == total,
                    old == opt_views(shards@),
                    shards@.len() == total,
                    i <= total,
                    want@.len() == i,
                    forall|j: int| 0 <= j < i ==> #[trigger] want@[j] == (j < k && nreq[j] && old[j] is None),
                    any_wanted == exists|j: int| 0 <= j < i && #[trigger] want@[j],
                decreases total - i,
            {
                let w = i < k && req[i] && shards[i].is_none();
                assert(w == (i < k && nreq[i as int] && old[i as int] is None));
                let ghost before = want@;
                let ghost was = any_wanted;
                want.push(w);
                if w {
                    any_wanted = true;
                }
                proof {
                    assert(want@[i as int] == w);
                    assert forall|j: int| 0 <= j < i implies #[trigger] want@[j] == before[j] by {}
                    if was {
                        let j = choose|j: int| 0 <= j < i && #[trigger] before[j];
                        assert(want@[j]);
                    }
                    if !w {
                        if exists|j: int| 0 <= j < i + 1 && #[trigger] want@[j] {
                            let j = choose|j: int| 0 <= j < i + 1 && #[trigger] want@[j];
                            assert(j < i);
                            assert(before[j]);
                        }
                    }
                }
                i = i + 1;
            }
            if !any_wanted {
                proof {
                    assert forall|j: int| 0 <= j < k && #[trigger] nreq[j] implies old[j] is Some by {
                        assert(!want@[j]);
                    }
                }
                return Ok(());
            }
            let valid = first_present(shards, k);
            let ghost v = valid@;
            proof {
                assert forall|c: int| 0 <= c < k implies #[trigger] v[c] < total && old[v[c] as int] is Some by {
                    assert(v[c] == present_prefix(old, total as nat)[c]);
                }
            }
            let inv = match self.get_data_decode_matrix(valid.as_slice()) {
                Ok(m) => m,
                Err(e) => return Err(e),
            };
            proof {
                assert forall|c: int| 0 <= c < valid@.len() implies !(#[trigger] want@[valid@[c] as int]) by {
                    assert(v[c] < total && old[v[c] as int] is Some);
                }
                assert forall|c: int| 0 <= c < valid@.len() implies #[trigger] shards@[valid@[c] as int] is Some by {
                    assert(v[c] < total && old[v[c] as int] is Some);
                }
            }
            self.recover_data(shards, &inv, valid.as_slice(), want.as_slice(), shard_len);
            proof {
                let fin = opt_views(shards@);
                let m = self.matrix_view();
                inv.lemma_view();
                let len = shard_len as nat;
                let work = Seq::new(total as nat, |j: int| if j < k && old[j] is None {
                    Some(Seq::new(len, |p: int| gather_byte(inv@[j], old, v, p)))
                } else {
                    old[j]
                });
                assert(recovered(m, old, work, k as nat, total as nat, true)) by {
                    assert forall|j: int| 0 <= j < k && old[j] is None implies filled_with(#[trigger] work[j], len, |p: int| gather_byte(inv@[j], old, v, p)) by {}
                    assert(is_inverse(inv@, rows_at(m, v), k as nat));
                }
                assert forall|j: int| 0 <= j < total implies #[trigger] fin[j] == if old[j] is None && nreq[j] { work[j] } else { old[j] } by {
                    if old[j] is None && nreq[j] {
                        assert(j < k);
                        assert(want@[j]);
                    }
                }
                assert(requires_data_only(nreq, k as nat));
                assert(nreq == normalized_required(required@, k as nat, total as nat));
                assert(exists|w: Seq<Option<Seq<u8>>>| #[trigger] recovered(m, old, w, k as nat, total as nat, true)
                    && forall|j: int| 0 <= j < total ==> #[trigger] fin[j] == if old[j] is None && nreq[j] { w[j] } else { old[j] });
            }
            return Ok(());
        }
        let mut working = copy_shards(shards);
        match self.reconstruct_internal(&mut working, false) {
            Ok(()) => {},
            Err(e) => return Err(e),
        }
        let ghost work = opt_views(working@);
        let mut i: usize = 0;
        while i < total
            invariant
                req@ == nreq,
                nreq.len() == total,
                shards@.len() == total,
                working@.len() == total,
                work == opt_views(working@),
                recovered(self.matrix_view(), old, work, k as nat, total as nat, false),
                i <= total,
                forall|j: int| 0 <= j < total ==> #[trigger] opt_views(shards@)[j] == if j < i && old[j] is None && nreq[j] {
                    work[j]
                } else {
                    old[j]
                },
            decreases total - i,
        {
            if req[i] && shards[i].is_none() {
                let ghost before = shards@;
                assert(opt_views(before)[i as int] is None);
                assert(work[i as int] is Some) by {
                    if i < k {
                        let v = present_prefix(old, total as nat).take(k as int);
                        let invw = choose|invw: Seq<Seq<u8>>| {
                            &&& is_matrix(invw, k as int, k as int)
                            &&& #[trigger] is_inverse(invw, rows_at(self.matrix_view(), v), k as nat)
                            &&& forall|t: int| 0 <= t < k && old[t] is None ==> filled_with(#[trigger] work[t], common_len(old), |p: int| gather_byte(invw[t], old, v, p))
                        };
                        assert(filled_with(work[i as int], common_len(old), |p: int| gather_byte(invw[i as int], old, v, p)));
                    }
                }
                let recovered_bytes = copy_bytes(working[i].as_ref().unwrap());
                shards[i] = Some(recovered_bytes);
                proof {
                    assert forall|j: int| 0 <= j < total implies #[trigger] opt_views(shards@)[j] == if j < i + 1 && old[j] is None && nreq[j] {
                        work[j]
                    } else {
                        old[j]
                    } by {
                        if j != i {
                            assert(opt_views(shards@)[j] == opt_views(before)[j]);
                        }
                    }
                }
            }
            i = i + 1;
        }
        Ok(())
    }
}

/// Partial reconstruction gives back what was encoded: when the shards handed
/// to `reconstruct_some` are an encoded set of shards with some missing, and
/// it succeeds, every required shard and every shard present is the encoded
/// one, and the other missing shards stay missing; with a code that loses
/// nothing it succeeds whenever `data_shard_count` shards are present.
pub proof fn lemma_reconstruct_some_recovers(
    rs: ReedSolomon,
    full: Seq<Seq<u8>>,
    old: Seq<Option<Seq<u8>>>,
    fin: Seq<Option<Seq<u8>>>,
    req: Seq<bool>,
    r: Result<(), Error>,
)
    requires
        rs.wf(),
        rs.family() == CodecFamily::Classic,
        full.len() == rs.data_count() + rs.parity_count(),
        full[0].len() > 0,
        uniform(full, full[0].len()),
        is_encoded(rs.matrix_view(), full, rs.data_count() as nat, (rs.data_count() + rs.parity_count()) as nat),
        erasure_of(old, full),
        req.len() == full.len() || req.len() == rs.data_count(),
        reconstruct_some_outcome(
            rs.matrix_view(),
            old,
            fin,
            req,
            rs.data_count() as nat,
            (rs.data_count() + rs.parity_count()) as nat,
            r,
        ),
    ensures
        present_count(old, full.len()) < rs.data_count() ==> r == Err::<(), Error>(Error::TooFewShardsPresent) && fin == old,
        present_count(old, full.len()) >= rs.data_count()
            && is_mds_code(rs.matrix_view(), rs.data_count() as nat, full.len() as nat) ==> r is Ok,
        r is Ok ==> forall|i: int| 0 <= i < full.len() ==> #[trigger] fin[i] == if old[i] is None
            && !normalized_required(req, rs.data_count() as nat, full.len())[i] {
            None::<Seq<u8>>
        } else {
            Some(full[i])
        },
{
    let k = rs.data_count() as nat;
    let total = (rs.data_count() + rs.parity_count()) as nat;
    let m = rs.matrix_view();
    let len = full[0].len();
    if present_count(old, total) >= k && is_mds_code(m, k, total) {
        lemma_first_present_nonsingular(rs, old);
    }
    let nreq = normalized_required(req, k, total);
    let data_only = requires_data_only(nreq, k);
    rs.lemma_classic_matrix();
    assert(lengths_error(old) is None) by {
        assert forall|i: int| 0 <= i < old.len() && #[trigger] old[i] is Some implies content(old[i]).len() == len by {
            assert(old[i] == Some(full[i]));
        }
    }
    lemma_present_prefix(old, total);
    if r is Ok {
        if present_count(old, total) == total {
            assert forall|i: int| 0 <= i < total implies #[trigger] old[i] is Some by {
                if old[i] is None {
                    lemma_present_count_missing(old, total, i);
                }
            }
        } else if data_only && forall|i: int| 0 <= i < k && #[trigger] nreq[i] ==> old[i] is Some {
            assert forall|i: int| 0 <= i < total implies #[trigger] fin[i] == if old[i] is None && !nreq[i] {
                None::<Seq<u8>>
            } else {
                Some(full[i])
            } by {
                if nreq[i] {
                    assert(i < k);
                }
            }
        } else {
            let work = choose|work: Seq<Option<Seq<u8>>>| #[trigger] recovered(m, old, work, k, total, data_only)
                && forall|i: int| 0 <= i < total ==> #[trigger] fin[i] == if old[i] is None && nreq[i] { work[i] } else { old[i] };
            lemma_recovered_restores(rs, full, old, work, data_only);
            assert forall|i: int| 0 <= i < total implies #[trigger] fin[i] == if old[i] is None && !nreq[i] {
                None::<Seq<u8>>
            } else {
                Some(full[i])
            } by {
                if old[i] is None && nreq[i] {
                    assert(work[i] == if data_only && i >= k && old[i] is None { None::<Seq<u8>> } else { Some(full[i]) });
                    if data_only {
                        assert(i < k);
                    }
                }
            }
        }
    }
}

} // verus!
