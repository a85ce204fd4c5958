//! Planned reconstruction of `Option<Vec<u8>>` shard sets: a plan made once
//! for a missing pattern (the shards present, the decode matrix) and executed
//! on every shard set with that pattern.
use vstd::prelude::*;

use crate::codec::CodecFamily;
use crate::codec::reconstruct::{
    common_len, content, first_present, init_missing, lemma_present_prefix, lengths_error, opt_views,
    present_count, present_prefix, recovered, reconstruct_outcome, rows_at, scan_shards,
};
use crate::codec::reed_solomon::ReedSolomon;
use crate::errors::Error;
use crate::matrix::{Matrix, is_inverse, is_matrix, singular};

verus! {

/// The indices of the missing shards among the first `n`, in order.
pub open spec fn missing_list(s: Seq<Option<Seq<u8>>>, n: nat) -> Seq<usize>
    decreases n,
{
    if n == 0 {
        Seq::empty()
    } else if s[n - 1] is None {
        missing_list(s, (n - 1) as nat).push((n - 1) as usize)
    } else {
        missing_list(s, (n - 1) as nat)
    }
}

/// The indices `i < n` of the missing shards that `req` marks, in order.
pub open spec fn required_list(req: Seq<bool>, s: Seq<Option<Seq<u8>>>, n: nat) -> Seq<usize>
    decreases n,
{
    if n == 0 {
        Seq::empty()
    } else if req[n - 1] && s[n - 1] is None {
        required_list(req, s, (n - 1) as nat).push((n - 1) as usize)
    } else {
        required_list(req, s, (n - 1) as nat)
    }
}

/// A missing list names exactly the missing shards, below `n`.
proof fn lemma_missing_list(s: Seq<Option<Seq<u8>>>, n: nat)
    requires
        n <= s.len(),
        s.len() <= usize::MAX,
    ensures
        forall|j: int| 0 <= j < missing_list(s, n).len() ==> #[trigger] missing_list(s, n)[j] < n
            && s[missing_list(s, n)[j] as int] is None,
        forall|i: int| 0 <= i < n && s[i] is None ==> #[trigger] missing_list(s, n).contains(i as usize),
    decreases n,
{
    if n > 0 {
        let m = (n - 1) as nat;
        lemma_missing_list(s, m);
        let q = missing_list(s, m);
        assert forall|j: int| 0 <= j < missing_list(s, n).len() implies #[trigger] missing_list(s, n)[j] < n
            && s[missing_list(s, n)[j] as int] is None by {
            if j < q.len() {
                assert(missing_list(s, n)[j] == q[j]);
                assert(missing_list(s, m)[j] < m && s[missing_list(s, m)[j] as int] is None);
            }
        }
        assert forall|i: int| 0 <= i < n && s[i] is None implies #[trigger] missing_list(s, n).contains(i as usize) by {
            if i < m {
                assert(missing_list(s, m).contains(i as usize));
                let j = choose|j: int| 0 <= j < q.len() && q[j] == i as usize;
                assert(missing_list(s, n)[j] == i as usize);
            } else {
                assert(missing_list(s, n)[q.len() as int] == i as usize);
            }
        }
    }
}

/// Shard sets with the same missing list have the same missing pattern, the
/// same shards present and the same count of them.
proof fn lemma_same_missing(s: Seq<Option<Seq<u8>>>, t: Seq<Option<Seq<u8>>>, n: nat)
    requires
        n <= s.len(),
        n <= t.len(),
        s.len() <= usize::MAX,
        t.len() <= usize::MAX,
        missing_list(s, n) == missing_list(t, n),
    ensures
        forall|i: int| 0 <= i < n ==> (#[trigger] s[i] is None) == (t[i] is None),
        present_prefix(s, n) == present_prefix(t, n),
        present_count(s, n) == present_count(t, n),
    decreases n,
{
    if n > 0 {
        let m = (n - 1) as nat;
        lemma_missing_list(s, m);
        lemma_missing_list(t, m);
        let qs = missing_list(s, m);
        let qt = missing_list(t, m);
        if s[n - 1] is None && t[n - 1] is Some {
            assert(missing_list(s, n).len() == qs.len() + 1);
            assert(missing_list(t, n) == qt);
            let last = missing_list(s, n)[qs.len() as int];
            assert(last == m as usize);
            assert(qt[qs.len() as int] < m);
        } else if s[n - 1] is Some && t[n - 1] is None {
            assert(missing_list(t, n).len() == qt.len() + 1);
            assert(missing_list(s, n) == qs);
            assert(missing_list(t, n)[qt.len() as int] == m as usize);
            assert(qs[qt.len() as int] < m);
        } else if s[n - 1] is None {
            assert(qs == missing_list(s, n).drop_last());
            assert(qt == missing_list(t, n).drop_last());
        }
        lemma_same_missing(s, t, m);
    }
}

/// A required list names exactly the missing shards below `n` that `req` marks.
proof fn lemma_required_list(req: Seq<bool>, s: Seq<Option<Seq<u8>>>, n: nat)
    requires
        n <= s.len(),
        n <= req.len(),
        s.len() <= usize::MAX,
    ensures
        forall|j: int| 0 <= j < required_list(req, s, n).len() ==> #[trigger] required_list(req, s, n)[j] < n
            && s[required_list(req, s, n)[j] as int] is None && req[required_list(req, s, n)[j] as int],
        forall|i: int| 0 <= i < n && s[i] is None && req[i] ==> #[trigger] required_list(req, s, n).contains(i as usize),
    decreases n,
{
    if n > 0 {
        let m = (n - 1) as nat;
        lemma_required_list(req, s, m);
        let q = required_list(req, s, m);
        assert forall|j: int| 0 <= j < required_list(req, s, n).len() implies #[trigger] required_list(req, s, n)[j] < n
            && s[required_list(req, s, n)[j] as int] is None && req[required_list(req, s, n)[j] as int] by {
            if j < q.len() {
                assert(required_list(req, s, n)[j] == q[j]);
                assert(required_list(req, s, m)[j] < m && s[required_list(req, s, m)[j] as int] is None);
            }
        }
        assert forall|i: int| 0 <= i < n && s[i] is None && req[i] implies #[trigger] required_list(req, s, n).contains(i as usize) by {
            if i < m {
                assert(required_list(req, s, m).contains(i as usize));
                let j = choose|j: int| 0 <= j < q.len() && q[j] == i as usize;
                assert(required_list(req, s, n)[j] == i as usize);
            } else {
                assert(required_list(req, s, n)[q.len() as int] == i as usize);
            }
        }
    }
}

/// The plan of a reconstruction for one missing pattern.
pub struct OptionVecReconstructPlan {
    shard_len: usize,
    valid_indices: Vec<usize>,
    invalid_indices: Vec<usize>,
    number_present: usize,
    data_decode_matrix: Option<Matrix>,
    required_missing_data_indices: Vec<usize>,
}

/// A reusable reconstruction workspace for `Option<Vec<u8>>` shard sets that
/// keep one missing pattern and shard length.
pub struct OptionVecReconstructWorkspace(OptionVecReconstructPlan);

impl OptionVecReconstructPlan {
    /// Every shard was present when the plan was made: there is nothing to do.
    pub closed spec fn trivial(&self) -> bool {
        self.data_decode_matrix is None
    }

    /// The missing indices of the plan.
    pub closed spec fn invalid(&self) -> Seq<usize> {
        self.invalid_indices@
    }

    /// The count of shards present of the plan.
    pub closed spec fn present(&self) -> nat {
        self.number_present as nat
    }

    /// The shard length of the plan.
    pub closed spec fn len(&self) -> nat {
        self.shard_len as nat
    }

    /// The plan is the one `rs` makes for the shards `s`, the list of
    /// required shards aside.
    pub closed spec fn plans_pattern(&self, rs: ReedSolomon, s: Seq<Option<Seq<u8>>>) -> bool {
        let k = rs.data_count() as nat;
        let total = (rs.data_count() + rs.parity_count()) as nat;
        &&& s.len() == total
        &&& lengths_error(s) is None
        &&& if present_count(s, total) == total {
            &&& self.shard_len == 0
            &&& self.number_present == total
            &&& self.data_decode_matrix is None
            &&& self.required_missing_data_indices@.len() == 0
        } else {
            &&& present_count(s, total) >= k
            &&& self.shard_len == common_len(s)
            &&& self.shard_len > 0
            &&& forall|i: int| 0 <= i < total && s[i] is Some ==> #[trigger] content(s[i]).len() == self.shard_len
            &&& self.number_present == present_count(s, total)
            &&& self.valid_indices@ == present_prefix(s, total).take(k as int)
            &&& self.invalid_indices@ == missing_list(s, total)
            &&& self.data_decode_matrix matches Some(inv) && inv.wf() && inv.rows() == k && inv.cols() == k
                && is_inverse(inv@, rows_at(rs.matrix_view(), self.valid_indices@), k)
        }
    }

    /// The plan is the one `rs` makes for the shards `s` and the mask `req`
    /// (a flag per shard), or for no mask.
    pub closed spec fn plans(&self, rs: ReedSolomon, s: Seq<Option<Seq<u8>>>, req: Option<Seq<bool>>) -> bool {
        &&& self.plans_pattern(rs, s)
        &&& present_count(s, s.len()) < s.len() ==> self.required_missing_data_indices@ == match req {
            Some(q) => required_list(q, s, rs.data_count() as nat),
            None => Seq::<usize>::empty(),
        }
    }
}

impl OptionVecReconstructWorkspace {
    /// The workspace holds a plan that `rs` made for some shard set.
    pub closed spec fn wf_for(&self, rs: ReedSolomon) -> bool {
        exists|s: Seq<Option<Seq<u8>>>| #[trigger] self.0.plans_pattern(rs, s)
    }

    /// The plan held.
    pub closed spec fn plan(&self) -> OptionVecReconstructPlan {
        self.0
    }
}

/// The indices of the missing shards.
fn missing_indices(shards: &[Option<Vec<u8>>]) -> (r: Vec<usize>)
    ensures
        r@ == missing_list(opt_views(shards@), shards@.len()),
{
    let ghost views = opt_views(shards@);
    let mut r: Vec<usize> = Vec::new();
    let mut i: usize = 0;
    while i < shards.len()
        invariant
            views == opt_views(shards@),
            i <= shards@.len(),
            r@ == missing_list(views, i as nat),
        decreases shards@.len() - i,
    {
        if shards[i].is_none() {
            assert(views[i as int] is None);
            r.push(i);
        } else {
            assert(views[i as int] is Some);
        }
        i = i + 1;
    }
    r
}

/// The indices below `k` of the missing shards that `required` marks.
fn required_missing(required: &[bool], shards: &[Option<Vec<u8>>], k: usize) -> (r: Vec<usize>)
    requires
        k <= required@.len(),
        k <= shards@.len(),
    ensures
        r@ == required_list(required@, opt_views(shards@), k as nat),
{
    let ghost views = opt_views(shards@);
    let mut r: Vec<usize> = Vec::new();
    let mut i: usize = 0;
    while i < k
        invariant
            views == opt_views(shards@),
            k <= required@.len(),
            k <= shards@.len(),
            i <= k,
            r@ == required_list(required@, views, i as nat),
        decreases k - i,
    {
        if required[i] && shards[i].is_none() {
            assert(views[i as int] is None);
            r.push(i);
        } else {
            assert(!(required@[i as int] && views[i as int] is None));
        }
        i = i + 1;
    }
    r
}

impl ReedSolomon {
    /// Plan the reconstruction of `shards`: the length checks, then, unless
    /// every shard is present, the shards present, the missing ones, the decode
    /// matrix and the missing data shards that `required` marks.
    fn plan_option_vec_reconstruct(&self, shards: &[Option<Vec<u8>>], required: Option<&[bool]>) -> (r: Result<OptionVecReconstructPlan, Error>)
        requires
            self.wf(),
            self.family() == CodecFamily::Classic,
            shards@.len() == self.data_count() + self.parity_count(),
            required matches Some(q) ==> q@.len() >= self.data_count(),
        ensures
            match lengths_error(opt_views(shards@)) {
                Some(e) => r == Err::<OptionVecReconstructPlan, Error>(e),
                None => if present_count(opt_views(shards@), shards@.len()) == shards@.len() {
                    r matches Ok(p) && p.trivial() && p.plans(*self, opt_views(shards@), None)
                } else if present_count(opt_views(shards@), shards@.len()) < self.data_count() {
                    r == Err::<OptionVecReconstructPlan, Error>(Error::TooFewShardsPresent)
                } else {
                    ||| (r matches Ok(p) && !p.trivial() && p.plans(*self, opt_views(shards@), match required {
                        Some(q) => Some(q@),
                        None => None::<Seq<bool>>,
                    }))
                    ||| r == Err::<OptionVecReconstructPlan, Error>(Error::InvalidCustomMatrix) && singular(
                        rows_at(self.matrix_view(), present_prefix(opt_views(shards@), shards@.len() as nat).take(self.data_count() as int)),
                        self.data_count() as nat,
                    )
                },
            },
    {
        proof {
            self.lemma_fields();
            self.lemma_classic_matrix();
        }
        let k = self.data_shard_count;
        let total = self.total_shard_count;
        let ghost s = opt_views(shards@);
        let (number_present, shard_len) = match scan_shards(shards) {
            Ok(x) => x,
            Err(e) => return Err(e),
        };
        if number_present == total {
            return Ok(OptionVecReconstructPlan {
                shard_len: 0,
                valid_indices: Vec::new(),
                invalid_indices: Vec::new(),
                number_present,
                data_decode_matrix: None,
                required_missing_data_indices: Vec::new(),
            });
        }
        if number_present < k {
            return Err(Error::TooFewShardsPresent);
        }
        proof {
            lemma_present_prefix(s, total as nat);
        }
        let valid_indices = first_present(shards, k);
        proof {
            assert forall|c: int| 0 <= c < valid_indices@.len() implies #[trigger] valid_indices@[c] < total by {
                assert(valid_indices@[c] == present_prefix(s, total as nat)[c]);
            }
        }
        let invalid_indices = missing_indices(shards);
        let data_decode_matrix = match self.get_data_decode_matrix(valid_indices.as_slice()) {
            Ok(m) => m,
            Err(e) => return Err(e),
        };
        let required_missing_data_indices = match required {
            Some(q) => required_missing(q, shards, k),
            None => Vec::new(),
        };
        Ok(OptionVecReconstructPlan {
            shard_len,
            valid_indices,
            invalid_indices,
            number_present,
            data_decode_matrix: Some(data_decode_matrix),
            required_missing_data_indices,
        })
    }
}

impl ReedSolomon {
    /// Execute a plan made for the missing pattern of `shards`: recover the
    /// missing data shards and, unless `data_only`, the missing parity shards.
    fn execute_option_vec_reconstruct_plan_serial(
        &self,
        shards: &mut [Option<Vec<u8>>],
        plan: &OptionVecReconstructPlan,
        data_only: bool,
    ) -> (r: Result<(), Error>)
        requires
            self.wf(),
            self.family() == CodecFamily::Classic,
            plan.plans_pattern(*self, opt_views(old(shards)@)),
            !plan.trivial(),
        ensures
            r is Ok,
            final(shards)@.len() == old(shards)@.len(),
            recovered(
                self.matrix_view(),
                opt_views(old(shards)@),
                opt_views(final(shards)@),
                self.data_count() as nat,
                (self.data_count() + self.parity_count()) as nat,
                data_only,
            ),
    {
        proof {
            self.lemma_fields();
        }
        let ghost old = opt_views(shards@);
        let inv = plan.data_decode_matrix.as_ref().unwrap();
        let missing = init_missing(shards, self.data_shard_count, data_only, plan.shard_len);
        self.finish_recovery(
            shards,
            inv,
            plan.valid_indices.as_slice(),
            missing.as_slice(),
            plan.shard_len,
            data_only,
            Ghost(old),
        );
        Ok(())
    }

    /// Execute a plan made with the mask `req`: recover only the missing data
    /// shards it marks.
    fn execute_option_vec_required_data_plan(
        &self,
        shards: &mut [Option<Vec<u8>>],
        plan: OptionVecReconstructPlan,
        Ghost(req): Ghost<Seq<bool>>,
    ) -> (r: Result<(), Error>)
        requires
            self.wf(),
            self.family() == CodecFamily::Classic,
            req.len() == old(shards)@.len(),
            plan.plans(*self, opt_views(old(shards)@), Some(req)),
        ensures
            r is Ok,
            final(shards)@.len() == old(shards)@.len(),
            (forall|i: int| 0 <= i < self.data_count() && #[trigger] req[i] ==> opt_views(old(shards)@)[i] is Some)
                ==> opt_views(final(shards)@) == opt_views(old(shards)@),
            !(forall|i: int| 0 <= i < self.data_count() && #[trigger] req[i] ==> opt_views(old(shards)@)[i] is Some)
                ==> exists|work: Seq<Option<Seq<u8>>>| #[trigger] recovered(
                    self.matrix_view(),
                    opt_views(old(shards)@),
                    work,
                    self.data_count() as nat,
                    (self.data_count() + self.parity_count()) as nat,
                    true,
                ) && forall|i: int| 0 <= i < old(shards)@.len() ==> #[trigger] opt_views(final(shards)@)[i] == if i < self.data_count()
                    && opt_views(old(shards)@)[i] is None && req[i] {
                    work[i]
                } else {
                    opt_views(old(shards)@)[i]
                },
    {
        proof {
            self.lemma_fields();
            self.lemma_classic_matrix();
        }
        let ghost old = opt_views(shards@);
        let k = self.data_shard_count;
        let total = self.total_shard_count;
        proof {
            lemma_required_list(req, old, k as nat);
            lemma_present_prefix(old, total as nat);
        }
        if plan.required_missing_data_indices.len() == 0 {
            proof {
                assert forall|i: int| 0 <= i < k && #[trigger] req[i] implies old[i] is Some by {
                    if old[i] is None {
                        if present_count(old, total as nat) == total {
                            crate::codec::reconstruct::lemma_present_count_missing(old, total as nat, i);
                        }
                        assert(required_list(req, old, k as nat).contains(i as usize));
                    }
                }
            }
            return Ok(());
        }
        let ghost list = plan.required_missing_data_indices@;
        let mut want: Vec<bool> = Vec::with_capacity(total);
        let mut i: usize = 0;
        while i < total
            invariant
                i <= total,
                want@.len() == i,
                forall|j: int| 0 <= j < i ==> !(#[trigger] want@[j]),
            decreases total - i,
        {
            want.push(false);
            i = i + 1;
        }
        let mut t: usize = 0;
        while t < plan.required_missing_data_indices.len()
            invariant
                list == plan.required_missing_data_indices@,
                want@.len() == total,
                total == old.len(),
                forall|j: int| 0 <= j < list.len() ==> #[trigger] list[j] < k && old[list[j] as int] is None && req[list[j] as int],
                t <= list.len(),
                forall|j: int| 0 <= j < total ==> #[trigger] want@[j] == exists|u: int| 0 <= u < t && list[u] == j as usize,
                k <= total,
            decreases list.len() - t,
        {
            let idx = plan.required_missing_data_indices[t];
            let ghost before = want@;
            want.set(idx, true);
            proof {
                assert forall|j: int| 0 <= j < total implies #[trigger] want@[j] == exists|u: int| 0 <= u < t + 1 && list[u] == j as usize by {
                    if j == idx {
                        assert(list[t as int] == j as usize);
                    } else {
                        assert(want@[j] == before[j]);
                        if exists|u: int| 0 <= u < t + 1 && list[u] == j as usize {
                            let u = choose|u: int| 0 <= u < t + 1 && list[u] == j as usize;
                            assert(u < t);
                        }
                    }
                }
            }
            t = t + 1;
        }
        let ghost pc = present_count(old, total as nat);
        assert(pc < total) by {
            if pc == total {
                assert(plan.required_missing_data_indices@.len() == 0);
            }
        }
        let inv = plan.data_decode_matrix.as_ref().unwrap();
        let ghost v = plan.valid_indices@;
        proof {
            assert forall|c: int| 0 <= c < k implies #[trigger] v[c] < total && old[v[c] as int] is Some by {
                assert(v[c] == present_prefix(old, total as nat)[c]);
            }
            assert forall|j: int| 0 <= j < total implies #[trigger] want@[j] == (j < k && old[j] is None && req[j]) by {
                if j < k && old[j] is None && req[j] {
                    assert(required_list(req, old, k as nat).contains(j as usize));
                    let u = choose|u: int| 0 <= u < list.len() && list[u] == j as usize;
                    assert(list[u] == j as usize);
                }
                if want@[j] {
                    let u = choose|u: int| 0 <= u < list.len() && list[u] == j as usize;
                    assert(list[u] < k && old[list[u] as int] is None && req[list[u] as int]);
                }
            }
            assert forall|c: int| 0 <= c < plan.valid_indices@.len() implies !(#[trigger] want@[plan.valid_indices@[c] as int]) by {
                assert(v[c] < total && old[v[c] as int] is Some);
            }
            assert forall|c: int| 0 <= c < plan.valid_indices@.len() implies #[trigger] shards@[plan.valid_indices@[c] as int] is Some by {
                assert(v[c] < total && old[v[c] as int] is Some);
            }
            assert forall|c: int| 0 <= c < plan.valid_indices@.len() implies #[trigger] plan.valid_indices@[c] < shards@.len() by {
                assert(v[c] < total && old[v[c] as int] is Some);
            }
        }
        self.recover_data(shards, inv, plan.valid_indices.as_slice(), want.as_slice(), plan.shard_len);
        proof {
            let fin = opt_views(shards@);
            let m = self.matrix_view();
            inv.lemma_view();
            let len = plan.shard_len as nat;
            let work = Seq::new(total as nat, |j: int| if j < k && old[j] is None {
                Some(Seq::new(len, |p: int| crate::codec::reconstruct::gather_byte(inv@[j], old, v, p)))
            } else {
                old[j]
            });
            assert(recovered(m, old, work, k as nat, total as nat, true)) by {
                assert forall|j: int| 0 <= j < k && old[j] is None implies crate::codec::reconstruct::filled_with(#[trigger] work[j], common_len(old), |p: int| crate::codec::reconstruct::gather_byte(inv@[j], old, v, p)) by {}
            }
            assert forall|j: int| 0 <= j < total implies #[trigger] fin[j] == if j < k && old[j] is None && req[j] { work[j] } else { old[j] } by {
                assert(want@[j] == (j < k && old[j] is None && req[j]));
            }
            let u = list[0] as int;
            assert(u < k && old[u] is None && req[u]);
        }
        Ok(())
    }
}

/// What `reconstruct_opt` (or, with `data_only`, `reconstruct_data_opt`)
/// does from `old` to `fin`: the length checks on the present shards; nothing
/// when no shard is missing; too few present refused; otherwise what the
/// serial reconstruction does.
pub open spec fn reconstruct_opt_outcome(
    m: Seq<Seq<u8>>,
    old: Seq<Option<Seq<u8>>>,
    fin: Seq<Option<Seq<u8>>>,
    k: nat,
    total: nat,
    data_only: bool,
    r: Result<(), Error>,
) -> bool {
    match lengths_error(old) {
        Some(e) => r == Err::<(), Error>(e) && fin == old,
        None => if present_count(old, old.len()) == old.len() {
            r is Ok && fin == old
        } else if present_count(old, old.len()) < k {
            r == Err::<(), Error>(Error::TooFewShardsPresent) && fin == old
        } else {
            reconstruct_outcome(m, old, fin, k, total, data_only, r)
        },
    }
}

/// Whether two index lists are equal.
fn same_indices(a: &[usize], b: &[usize]) -> (r: bool)
    ensures
        r == (a@ == b@),
{
    if a.len() != b.len() {
        return false;
    }
    let mut i: usize = 0;
    while i < a.len()
        invariant
            a@.len() == b@.len(),
            i <= a@.len(),
            forall|j: int| 0 <= j < i ==> #[trigger] a@[j] == b@[j],
        decreases a@.len() - i,
    {
        if a[i] != b[i] {
            assert(a@[i as int] != b@[i as int]);
            return false;
        }
        i = i + 1;
    }
    assert(a@ =~= b@);
    true
}

impl ReedSolomon {
    /// The shape of a reconstruction: the shard length, the missing data
    /// shards and the missing shards, after the length checks; all zero when
    /// no shard is missing.
    fn summarize_option_vec_reconstruct_shape(&self, shards: &[Option<Vec<u8>>]) -> (r: Result<(usize, usize, usize), Error>)
        requires
            self.wf(),
        ensures
            match lengths_error(opt_views(shards@)) {
                Some(e) => r == Err::<(usize, usize, usize), Error>(e),
                None => if present_count(opt_views(shards@), shards@.len()) == shards@.len() {
                    r == Ok::<(usize, usize, usize), Error>((0, 0, 0))
                } else if present_count(opt_views(shards@), shards@.len()) < self.data_count() {
                    r == Err::<(usize, usize, usize), Error>(Error::TooFewShardsPresent)
                } else {
                    r matches Ok((len, missing_data, missing_total)) && len == common_len(opt_views(shards@))
                        && missing_total == shards@.len() - present_count(opt_views(shards@), shards@.len())
                        && missing_data == (if self.data_count() < shards@.len() { self.data_count() as int } else { shards@.len() as int })
                            - present_count(
                            opt_views(shards@),
                            if self.data_count() < shards@.len() { self.data_count() as nat } else { shards@.len() },
                        )
                },
            },
    {
        proof {
            self.lemma_fields();
        }
        let ghost s = opt_views(shards@);
        let (number_present, shard_len) = match scan_shards(shards) {
            Ok(x) => x,
            Err(e) => return Err(e),
        };
        let n = shards.len();
        proof {
            assert(s.len() == n);
            lemma_present_prefix(s, s.len());
        }
        let missing_total = shards.len() - number_present;
        if missing_total == 0 {
            return Ok((0, 0, 0));
        }
        if number_present < self.data_shard_count {
            return Err(Error::TooFewShardsPresent);
        }
        let m = if self.data_shard_count < shards.len() {
            self.data_shard_count
        } else {
            shards.len()
        };
        let mut present_data: usize = 0;
        let mut i: usize = 0;
        while i < m
            invariant
                s == opt_views(shards@),
                m <= shards@.len(),
                i <= m,
                present_data == present_count(s, i as nat),
                present_data <= i,
            decreases m - i,
        {
            if shards[i].is_some() {
                assert(s[i as int] is Some);
                present_data = present_data + 1;
            } else {
                assert(s[i as int] is None);
            }
            i = i + 1;
        }
        Ok((shard_len, m - present_data, missing_total))
    }

    /// Reconstruct every missing shard. The length checks and the count of
    /// shards present come first; the reconstruction itself runs serially.
    pub fn reconstruct_opt(&self, shards: &mut [Option<Vec<u8>>]) -> (r: Result<(), Error>)
        requires
            self.wf(),
        ensures
            final(shards)@.len() == old(shards)@.len(),
            self.family() != CodecFamily::Classic ==> r == Err::<(), Error>(Error::UnsupportedCodecFamily)
                && opt_views(final(shards)@) == opt_views(old(shards)@),
            self.family() == CodecFamily::Classic ==> reconstruct_opt_outcome(
                self.matrix_view(),
                opt_views(old(shards)@),
                opt_views(final(shards)@),
                self.data_count() as nat,
                (self.data_count() + self.parity_count()) as nat,
                false,
                r,
            ),
    {
        proof {
            self.lemma_fields();
        }
        if self.codec_family != CodecFamily::Classic {
            return Err(Error::UnsupportedCodecFamily);
        }
        let (_shard_len, _missing_data, missing) = match self.summarize_option_vec_reconstruct_shape(shards) {
            Ok(x) => x,
            Err(e) => return Err(e),
        };
        if missing == 0 {
            return Ok(());
        }
        self.reconstruct(shards)
    }

    /// Reconstruct the missing data shards only; checked as `reconstruct_opt`.
    pub fn reconstruct_data_opt(&self, shards: &mut [Option<Vec<u8>>]) -> (r: Result<(), Error>)
        requires
            self.wf(),
        ensures
            final(shards)@.len() == old(shards)@.len(),
            self.family() != CodecFamily::Classic ==> r == Err::<(), Error>(Error::UnsupportedCodecFamily)
                && opt_views(final(shards)@) == opt_views(old(shards)@),
            self.family() == CodecFamily::Classic ==> reconstruct_opt_outcome(
                self.matrix_view(),
                opt_views(old(shards)@),
                opt_views(final(shards)@),
                self.data_count() as nat,
                (self.data_count() + self.parity_count()) as nat,
                true,
                r,
            ),
    {
        proof {
            self.lemma_fields();
        }
        if self.codec_family != CodecFamily::Classic {
            return Err(Error::UnsupportedCodecFamily);
        }
        let (_shard_len, _missing_data, missing) = match self.summarize_option_vec_reconstruct_shape(shards) {
            Ok(x) => x,
            Err(e) => return Err(e),
        };
        if missing == 0 {
            return Ok(());
        }
        self.reconstruct_data(shards)
    }
}

/// What `reconstruct_some_opt` does from `old` to `fin` with the mask `req`:
/// a mask of the wrong length is refused; when only data shards are required,
/// the shard count, the length checks and the count of shards present are
/// checked and the required missing data shards recovered (nothing changes
/// when none is missing); otherwise every missing shard is reconstructed as
/// `reconstruct_opt` does.
pub open spec fn reconstruct_some_opt_outcome(
    m: Seq<Seq<u8>>,
    old: Seq<Option<Seq<u8>>>,
    fin: Seq<Option<Seq<u8>>>,
    req: Seq<bool>,
    k: nat,
    total: nat,
    r: Result<(), Error>,
) -> bool {
    if req.len() != total && req.len() != k {
        r == Err::<(), Error>(Error::InvalidShardFlags) && fin == old
    } else {
        let nreq = crate::codec::reconstruct::normalized_required(req, k, total);
        if crate::codec::reconstruct::requires_data_only(nreq, k) {
            if old.len() < total {
                r == Err::<(), Error>(Error::TooFewShards) && fin == old
            } else if old.len() > total {
                r == Err::<(), Error>(Error::TooManyShards) && fin == old
            } else {
                match lengths_error(old) {
                    Some(e) => r == Err::<(), Error>(e) && fin == old,
                    None => if present_count(old, total) == total {
                        r is Ok && fin == old
                    } else if present_count(old, total) < k {
                        r == Err::<(), Error>(Error::TooFewShardsPresent) && fin == old
                    } else if forall|i: int| 0 <= i < k && #[trigger] nreq[i] ==> old[i] is Some {
                        (r is Ok || (r == Err::<(), Error>(Error::InvalidCustomMatrix)
                            && singular(rows_at(m, present_prefix(old, total).take(k as int)), k))) && fin == old
                    } else {
                        ||| (r is Ok && exists|work: Seq<Option<Seq<u8>>>| #[trigger] recovered(m, old, work, k, total, true)
                            && forall|i: int| 0 <= i < total ==> #[trigger] fin[i] == if i < k && old[i] is None && nreq[i] {
                                work[i]
                            } else {
                                old[i]
                            })
                        ||| (r == Err::<(), Error>(Error::InvalidCustomMatrix) && fin == old
                            && singular(rows_at(m, present_prefix(old, total).take(k as int)), k))
                    },
                }
            }
        } else {
            reconstruct_opt_outcome(m, old, fin, k, total, false, r)
        }
    }
}

impl ReedSolomon {
    /// Recover the shards marked in `required` (a flag per shard, or per data
    /// shard): the required missing data shards alone when only data shards
    /// are required, else every missing shard.
    pub fn reconstruct_some_opt(&self, shards: &mut [Option<Vec<u8>>], required: &[bool]) -> (r: Result<(), Error>)
        requires
            self.wf(),
        ensures
            final(shards)@.len() == old(shards)@.len(),
            self.family() != CodecFamily::Classic ==> r == Err::<(), Error>(Error::UnsupportedCodecFamily)
                && opt_views(final(shards)@) == opt_views(old(shards)@),
            self.family() == CodecFamily::Classic ==> reconstruct_some_opt_outcome(
                self.matrix_view(),
                opt_views(old(shards)@),
                opt_views(final(shards)@),
                required@,
                self.data_count() as nat,
                (self.data_count() + self.parity_count()) as nat,
                r,
            ),
    {
        proof {
            self.lemma_fields();
        }
        if self.codec_family != CodecFamily::Classic {
            return Err(Error::UnsupportedCodecFamily);
        }
        let k = self.data_shard_count;
        let total = self.total_shard_count;
        let req = match crate::codec::reconstruct::normalize_required(required, k, total) {
            Some(v) => v,
            None => return Err(Error::InvalidShardFlags),
        };
        let ghost nreq = req@;
        let mut data_only = true;
        let mut i: usize = 0;
        while i < total
            invariant
                req@ == nreq,
                nreq.len() == total,
                i <= total,
                data_only == forall|j: int| 0 <= j < i && #[trigger] nreq[j] ==> j < k,
            decreases total - i,
        {
            if req[i] && i >= k {
                data_only = false;
            }
            i = i + 1;
        }
        if data_only {
            if shards.len() < total {
                return Err(Error::TooFewShards);
            }
            if shards.len() > total {
                return Err(Error::TooManyShards);
            }
            let plan = match self.plan_option_vec_reconstruct(shards, Some(req.as_slice())) {
                Ok(p) => p,
                Err(e) => return Err(e),
            };
            if plan.number_present == total {
                return Ok(());
            }
            return self.execute_option_vec_required_data_plan(shards, plan, Ghost(nreq));
        }
        match self.reconstruct_opt(shards) {
            Ok(()) => Ok(()),
            Err(e) => Err(e),
        }
    }

    /// Plan, once, the reconstruction of shard sets with the missing pattern
    /// and shard length of `shards`.
    pub fn prepare_reconstruct_opt_workspace(&self, shards: &[Option<Vec<u8>>]) -> (r: Result<OptionVecReconstructWorkspace, Error>)
        requires
            self.wf(),
        ensures
            self.family() != CodecFamily::Classic ==> r == Err::<OptionVecReconstructWorkspace, Error>(Error::UnsupportedCodecFamily),
            self.family() == CodecFamily::Classic ==> {
                let s = opt_views(shards@);
                let total = self.data_count() + self.parity_count();
                if s.len() < total {
                    r == Err::<OptionVecReconstructWorkspace, Error>(Error::TooFewShards)
                } else if s.len() > total {
                    r == Err::<OptionVecReconstructWorkspace, Error>(Error::TooManyShards)
                } else {
                    match lengths_error(s) {
                        Some(e) => r == Err::<OptionVecReconstructWorkspace, Error>(e),
                        None => if present_count(s, s.len()) == s.len() {
                            r matches Ok(ws) && ws.wf_for(*self) && ws.plan().trivial()
                        } else if present_count(s, s.len()) < self.data_count() {
                            r == Err::<OptionVecReconstructWorkspace, Error>(Error::TooFewShardsPresent)
                        } else {
                            ||| (r matches Ok(ws) && ws.wf_for(*self) && !ws.plan().trivial() && ws.plan().plans_pattern(*self, s)
                                && ws.plan().invalid() == missing_list(s, s.len()) && ws.plan().present() == present_count(s, s.len())
                                && ws.plan().len() == common_len(s))
                            ||| r == Err::<OptionVecReconstructWorkspace, Error>(Error::InvalidCustomMatrix) && singular(
                                rows_at(self.matrix_view(), present_prefix(s, total as nat).take(self.data_count() as int)),
                                self.data_count() as nat,
                            )
                        },
                    }
                }
            },
    {
        proof {
            self.lemma_fields();
        }
        if self.codec_family != CodecFamily::Classic {
            return Err(Error::UnsupportedCodecFamily);
        }
        if shards.len() < self.total_shard_count {
            return Err(Error::TooFewShards);
        }
        if shards.len() > self.total_shard_count {
            return Err(Error::TooManyShards);
        }
        match self.plan_option_vec_reconstruct(shards, None) {
            Ok(plan) => {
                let ws = OptionVecReconstructWorkspace(plan);
                proof {
                    assert(ws.0.plans_pattern(*self, opt_views(shards@)));
                }
                Ok(ws)
            },
            Err(e) => Err(e),
        }
    }

    /// Reconstruct with a prepared workspace: every missing shard is recovered
    /// when `shards` has the missing pattern, count of shards present and
    /// shard length the workspace was prepared for; nothing happens when every
    /// shard was present then.
    pub fn reconstruct_opt_with_workspace(&self, shards: &mut [Option<Vec<u8>>], workspace: &OptionVecReconstructWorkspace) -> (r: Result<(), Error>)
        requires
            self.wf(),
            workspace.wf_for(*self),
        ensures
            final(shards)@.len() == old(shards)@.len(),
            workspace.plan().trivial() ==> r is Ok && opt_views(final(shards)@) == opt_views(old(shards)@),
            !workspace.plan().trivial() && self.family() != CodecFamily::Classic ==> r == Err::<(), Error>(Error::UnsupportedCodecFamily)
                && opt_views(final(shards)@) == opt_views(old(shards)@),
            !workspace.plan().trivial() && self.family() == CodecFamily::Classic ==> {
                let s = opt_views(old(shards)@);
                let fin = opt_views(final(shards)@);
                let total = self.data_count() + self.parity_count();
                if s.len() < total {
                    r == Err::<(), Error>(Error::TooFewShards) && fin == s
                } else if s.len() > total {
                    r == Err::<(), Error>(Error::TooManyShards) && fin == s
                } else {
                    match lengths_error(s) {
                        Some(e) => r == Err::<(), Error>(e) && fin == s,
                        None => if missing_list(s, s.len()) != workspace.plan().invalid() {
                            r == Err::<(), Error>(Error::InvalidShardFlags) && fin == s
                        } else if present_count(s, s.len()) != workspace.plan().present() {
                            r == Err::<(), Error>(Error::TooFewShardsPresent) && fin == s
                        } else if common_len(s) != workspace.plan().len() {
                            r == Err::<(), Error>(Error::IncorrectShardSize) && fin == s
                        } else {
                            r is Ok && recovered(self.matrix_view(), s, fin, self.data_count() as nat, total as nat, false)
                        },
                    }
                }
            },
    {
        proof {
            self.lemma_fields();
        }
        let ghost s0 = choose|s0: Seq<Option<Seq<u8>>>| #[trigger] workspace.0.plans_pattern(*self, s0);
        if workspace.0.shard_len == 0 {
            return Ok(());
        }
        if self.codec_family != CodecFamily::Classic {
            return Err(Error::UnsupportedCodecFamily);
        }
        let total = self.total_shard_count;
        if shards.len() < total {
            return Err(Error::TooFewShards);
        }
        if shards.len() > total {
            return Err(Error::TooManyShards);
        }
        let ghost s = opt_views(shards@);
        let (number_present, shard_len) = match scan_shards(shards) {
            Ok(x) => x,
            Err(e) => return Err(e),
        };
        let invalid_indices = missing_indices(shards);
        if !same_indices(invalid_indices.as_slice(), workspace.0.invalid_indices.as_slice()) {
            return Err(Error::InvalidShardFlags);
        }
        if number_present != workspace.0.number_present {
            return Err(Error::TooFewShardsPresent);
        }
        if shard_len != workspace.0.shard_len {
            return Err(Error::IncorrectShardSize);
        }
        proof {
            self.lemma_classic_matrix();
            lemma_same_missing(s, s0, total as nat);
            assert(workspace.0.plans_pattern(*self, s));
        }
        self.execute_option_vec_reconstruct_plan_serial(shards, &workspace.0, false)
    }
}

} // verus!
