//! Progressive decoding: missing shards accumulated from the inputs as they
//! arrive, each call adding the share of the inputs it is given.
use vstd::prelude::*;

use crate::codec::CodecFamily;
use crate::codec::cauchy::lemma_mds_rows_nonsingular;
use crate::codec::classic::{code_byte, is_encoded, is_mds_code, is_systematic, uniform};
use crate::codec::reconstruct::{content, rows_at};
use crate::codec::reed_solomon::ReedSolomon;
use crate::errors::Error;
use crate::galois_8::{gf_mul, lemma_add_group};
use crate::matrix::{
    Matrix, id_entry, is_inverse, is_matrix, singular, lemma_assoc_entry, lemma_times_identity, lemma_xsum_ext, prod_entry, xsum,
};

verus! {

/// The indices marked `true` among the first `n` flags, in order.
pub open spec fn marked(mask: Seq<bool>, n: nat) -> Seq<usize>
    decreases n,
{
    if n == 0 {
        Seq::empty()
    } else if mask[n - 1] {
        marked(mask, (n - 1) as nat).push((n - 1) as usize)
    } else {
        marked(mask, (n - 1) as nat)
    }
}

/// The coefficient of the `c`-th expected input in the decode row of shard
/// `idx`: the row of the inverse for a data shard, that row mapped through the
/// encoding row for a parity shard.
pub open spec fn decode_coef(m: Seq<Seq<u8>>, inv: Seq<Seq<u8>>, k: nat, idx: int, c: int) -> u8 {
    if idx < k {
        inv[idx][c]
    } else {
        xsum(k, |i: int| gf_mul(m[idx][i], inv[i][c]))
    }
}

/// The share of byte `p` of shard `idx` that the inputs present among the
/// expected ones (`v`) contribute.
pub open spec fn decode_share(m: Seq<Seq<u8>>, inv: Seq<Seq<u8>>, k: nat, idx: int, input: Seq<Option<Seq<u8>>>, v: Seq<usize>, p: int) -> u8 {
    xsum(k, |c: int| if input[v[c] as int] is Some {
        gf_mul(decode_coef(m, inv, k, idx, c), content(input[v[c] as int])[p])
    } else {
        0u8
    })
}

/// `d` with the bytes of `x` added, when both are present.
pub open spec fn merged(d: Option<Seq<u8>>, x: Option<Seq<u8>>) -> Option<Seq<u8>> {
    match (d, x) {
        (Some(a), Some(b)) => Some(Seq::new(a.len(), |p: int| a[p] ^ b[p])),
        _ => d,
    }
}

/// Merging stops at pair `i`: an input without a destination, or of another length.
pub open spec fn merge_bad(d: Option<Seq<u8>>, x: Option<Seq<u8>>) -> bool {
    (d is None && x is Some) || (d is Some && x is Some && content(d).len() != content(x).len())
}

/// The error merging reports at a bad pair.
pub open spec fn merge_error(d: Option<Seq<u8>>) -> Error {
    if d is None {
        Error::TooFewShards
    } else {
        Error::IncorrectShardSize
    }
}

/// What `decode_idx` with expected inputs reports before it decodes, or
/// `None`: a mask of the wrong length, fewer expected inputs than data
/// shards, no shard (input or destination) to learn the length from, or two
/// shards of different lengths.
pub open spec fn decode_error(
    dst: Seq<Option<Seq<u8>>>,
    mask: Seq<bool>,
    input: Seq<Option<Seq<u8>>>,
    k: nat,
    total: nat,
) -> Option<Error> {
    let all = input + dst;
    if mask.len() != total {
        Some(Error::InvalidShardFlags)
    } else if marked(mask, total).len() < k {
        Some(Error::TooFewShardsPresent)
    } else if forall|i: int| 0 <= i < all.len() ==> #[trigger] all[i] is None {
        Some(Error::TooFewShardsPresent)
    } else if exists|a: int, b: int| 0 <= a < all.len() && 0 <= b < all.len() && all[a] is Some && all[b] is Some
        && #[trigger] content(all[a]).len() != #[trigger] content(all[b]).len() {
        Some(Error::IncorrectShardSize)
    } else {
        None
    }
}

/// A marked list names exactly the marked flags, in increasing order.
proof fn lemma_marked(mask: Seq<bool>, n: nat)
    requires
        n <= mask.len(),
        mask.len() <= usize::MAX,
    ensures
        marked(mask, n).len() <= n,
        forall|j: int| 0 <= j < marked(mask, n).len() ==> #[trigger] marked(mask, n)[j] < n && mask[marked(mask, n)[j] as int],
        forall|i: int, j: int| 0 <= i < j < marked(mask, n).len() ==> #[trigger] marked(mask, n)[i] < #[trigger] marked(mask, n)[j],
    decreases n,
{
    if n > 0 {
        let m = (n - 1) as nat;
        lemma_marked(mask, m);
        assert forall|j: int| 0 <= j < marked(mask, n).len() implies #[trigger] marked(mask, n)[j] < n && mask[marked(mask, n)[j] as int] by {
            if j < marked(mask, m).len() {
                assert(marked(mask, n)[j] == marked(mask, m)[j]);
                assert(marked(mask, m)[j] < m && mask[marked(mask, m)[j] as int]);
            }
        }
        assert forall|i: int, j: int| 0 <= i < j < marked(mask, n).len() implies #[trigger] marked(mask, n)[i] < #[trigger] marked(mask, n)[j] by {
            assert(marked(mask, n)[i] == marked(mask, m)[i]);
            assert(marked(mask, m)[i] < m);
            if j < marked(mask, m).len() {
                assert(marked(mask, n)[j] == marked(mask, m)[j]);
            }
        }
    }
}

/// The inputs followed by the destinations.
pub open spec fn all_shards(input: Seq<Option<Vec<u8>>>, dst: Seq<Option<Vec<u8>>>) -> Seq<Option<Seq<u8>>> {
    crate::codec::reconstruct::opt_views(input) + crate::codec::reconstruct::opt_views(dst)
}

/// Two present shards have different lengths.
pub open spec fn lengths_differ(all: Seq<Option<Seq<u8>>>) -> bool {
    exists|a: int, b: int| 0 <= a < all.len() && 0 <= b < all.len() && all[a] is Some && all[b] is Some
        && #[trigger] content(all[a]).len() != #[trigger] content(all[b]).len()
}

/// The indices of the expected inputs.
fn marked_indices(mask: &[bool]) -> (r: Vec<usize>)
    ensures
        r@ == marked(mask@, mask@.len()),
{
    let mut r: Vec<usize> = Vec::new();
    let mut i: usize = 0;
    while i < mask.len()
        invariant
            i <= mask@.len(),
            r@ == marked(mask@, i as nat),
        decreases mask@.len() - i,
    {
        if mask[i] {
            r.push(i);
        }
        i = i + 1;
    }
    r
}

/// The length of the first present shard among the inputs, then the
/// destinations, and whether every present shard has it.
fn common_shard_len(input: &[Option<Vec<u8>>], dst: &[Option<Vec<u8>>]) -> (r: (Option<usize>, bool))
    ensures
        r.0 is None <==> forall|i: int| 0 <= i < all_shards(input@, dst@).len() ==> #[trigger] all_shards(input@, dst@)[i] is None,
        r.0 is Some ==> (r.1 <==> !lengths_differ(all_shards(input@, dst@))),
        r.0 is Some && r.1 ==> forall|i: int| 0 <= i < all_shards(input@, dst@).len() && all_shards(input@, dst@)[i] is Some
            ==> #[trigger] content(all_shards(input@, dst@)[i]).len() == r.0->0,
{
    let ghost a_in = crate::codec::reconstruct::opt_views(input@);
    let ghost a_dst = crate::codec::reconstruct::opt_views(dst@);
    let ghost all = a_in + a_dst;
    assert(all == all_shards(input@, dst@));
    let n_in = input.len();
    let n_dst = dst.len();
    assert(all.len() == n_in + n_dst);
    let mut shard_len: Option<usize> = None;
    let ghost mut first: int = -1;
    let mut i: usize = 0;
    while i < n_in
        invariant
            a_in == crate::codec::reconstruct::opt_views(input@),
            all == a_in + a_dst,
            all == all_shards(input@, dst@),
            n_in == input@.len(),
            all.len() == n_in + a_dst.len(),
            i <= n_in,
            shard_len is None <==> forall|t: int| 0 <= t < i ==> #[trigger] all[t] is None,
            shard_len is Some ==> 0 <= first < i && all[first] is Some && content(all[first]).len() == shard_len->0,
        decreases n_in - i,
    {
        if shard_len.is_none() {
            match &input[i] {
                Some(v) => {
                    assert(all[i as int] == a_in[i as int]);
                    shard_len = Some(v.len());
                    proof {
                        first = i as int;
                    }
                },
                None => {
                    assert(all[i as int] == a_in[i as int]);
                },
            }
        }
        i = i + 1;
    }
    let mut j: usize = 0;
    while j < n_dst
        invariant
            a_dst == crate::codec::reconstruct::opt_views(dst@),
            all == a_in + a_dst,
            all == all_shards(input@, dst@),
            n_in == a_in.len(),
            n_dst == dst@.len(),
            all.len() == n_in + n_dst,
            j <= n_dst,
            shard_len is None <==> forall|t: int| 0 <= t < n_in + j ==> #[trigger] all[t] is None,
            shard_len is Some ==> 0 <= first < n_in + j && all[first] is Some && content(all[first]).len() == shard_len->0,
        decreases n_dst - j,
    {
        if shard_len.is_none() {
            match &dst[j] {
                Some(v) => {
                    assert(all[n_in + j] == a_dst[j as int]);
                    shard_len = Some(v.len());
                    proof {
                        first = (n_in + j) as int;
                    }
                },
                None => {
                    assert(all[n_in + j] == a_dst[j as int]);
                },
            }
        }
        j = j + 1;
    }
    let len = match shard_len {
        Some(l) => l,
        None => return (None, true),
    };
    let mut i: usize = 0;
    while i < n_in
        invariant
            a_in == crate::codec::reconstruct::opt_views(input@),
            all == a_in + a_dst,
            all == all_shards(input@, dst@),
            n_in == input@.len(),
            all.len() == n_in + a_dst.len(),
            i <= n_in,
            0 <= first < all.len() && all[first] is Some && content(all[first]).len() == len,
            shard_len == Some(len),
            forall|t: int| 0 <= t < i && all[t] is Some ==> #[trigger] content(all[t]).len() == len,
        decreases n_in - i,
    {
        match &input[i] {
            Some(v) => {
                assert(all[i as int] == a_in[i as int]);
                if v.len() != len {
                    assert(a_in[i as int] == Some(v@));
                    assert(all[i as int] is Some);
                    assert(content(all[first]).len() != content(all[i as int]).len());
                    assert(!(forall|t: int| 0 <= t < all.len() ==> #[trigger] all[t] is None));
                    assert(lengths_differ(all));
                    return (shard_len, false);
                }
            },
            None => {
                assert(all[i as int] == a_in[i as int]);
            },
        }
        i = i + 1;
    }
    let mut j: usize = 0;
    while j < n_dst
        invariant
            a_dst == crate::codec::reconstruct::opt_views(dst@),
            all == a_in + a_dst,
            all == all_shards(input@, dst@),
            n_in == a_in.len(),
            n_dst == dst@.len(),
            all.len() == n_in + n_dst,
            j <= n_dst,
            0 <= first < all.len() && all[first] is Some && content(all[first]).len() == len,
            shard_len == Some(len),
            forall|t: int| 0 <= t < n_in + j && all[t] is Some ==> #[trigger] content(all[t]).len() == len,
        decreases n_dst - j,
    {
        match &dst[j] {
            Some(v) => {
                assert(all[n_in + j] == a_dst[j as int]);
                if v.len() != len {
                    assert(a_dst[j as int] == Some(v@));
                    assert(all[n_in + j] is Some);
                    assert(content(all[first]).len() != content(all[n_in + j]).len());
                    assert(!(forall|t: int| 0 <= t < all.len() ==> #[trigger] all[t] is None));
                    assert(lengths_differ(all));
                    return (shard_len, false);
                }
            },
            None => {
                assert(all[n_in + j] == a_dst[j as int]);
            },
        }
        j = j + 1;
    }
    (shard_len, true)
}

/// `out` with the bytes of `x` added.
fn xor_into(out: &mut Vec<u8>, x: &Vec<u8>)
    requires
        old(out)@.len() == x@.len(),
    ensures
        final(out)@ == Seq::new(old(out)@.len(), |p: int| old(out)@[p] ^ x@[p]),
{
    let ghost start = out@;
    let n = out.len();
    let mut p: usize = 0;
    while p < n
        invariant
            n == out@.len(),
            n == x@.len(),
            n == start.len(),
            p <= n,
            forall|t: int| 0 <= t < p ==> #[trigger] out@[t] == start[t] ^ x@[t],
            forall|t: int| p <= t < n ==> #[trigger] out@[t] == start[t],
        decreases n - p,
    {
        let v = out[p] ^ x[p];
        out.set(p, v);
        p = p + 1;
    }
    assert(out@ =~= Seq::new(start.len(), |t: int| start[t] ^ x@[t]));
}

/// Merge mode: add each input to its destination, in order; an input
/// without a destination, or of another length, stops the merge there.
fn merge_shards(dst: &mut [Option<Vec<u8>>], input: &[Option<Vec<u8>>]) -> (r: Result<(), Error>)
    requires
        old(dst)@.len() == input@.len(),
    ensures
        final(dst)@.len() == old(dst)@.len(),
        ({
            let d = crate::codec::reconstruct::opt_views(old(dst)@);
            let x = crate::codec::reconstruct::opt_views(input@);
            let fin = crate::codec::reconstruct::opt_views(final(dst)@);
            &&& (forall|i: int| 0 <= i < d.len() ==> !merge_bad(#[trigger] d[i], x[i])) ==> r is Ok
                && forall|i: int| 0 <= i < d.len() ==> #[trigger] fin[i] == merged(d[i], x[i])
            &&& (exists|i: int| 0 <= i < d.len() && merge_bad(#[trigger] d[i], x[i])) ==> r is Err
            &&& r is Err ==> exists|i0: int| 0 <= i0 < d.len() && merge_bad(#[trigger] d[i0], x[i0])
                && (forall|j: int| 0 <= j < i0 ==> !merge_bad(#[trigger] d[j], x[j]))
                && r == Err::<(), Error>(merge_error(d[i0]))
                && forall|j: int| 0 <= j < d.len() ==> #[trigger] fin[j] == if j < i0 { merged(d[j], x[j]) } else { d[j] }
        }),
{
    let ghost d = crate::codec::reconstruct::opt_views(dst@);
    let ghost x = crate::codec::reconstruct::opt_views(input@);
    let n = dst.len();
    let mut i: usize = 0;
    while i < n
        invariant
            n == dst@.len(),
            n == old(dst)@.len(),
            n == input@.len(),
            d == crate::codec::reconstruct::opt_views(old(dst)@),
            d.len() == n,
            x == crate::codec::reconstruct::opt_views(input@),
            i <= n,
            forall|j: int| 0 <= j < i ==> !merge_bad(#[trigger] d[j], x[j]),
            forall|j: int| 0 <= j < n ==> #[trigger] crate::codec::reconstruct::opt_views(dst@)[j] == if j < i { merged(d[j], x[j]) } else { d[j] },
        decreases n - i,
    {
        let ghost before = crate::codec::reconstruct::opt_views(dst@);
        assert(before[i as int] == d[i as int]);
        match &input[i] {
            Some(xv) => {
                assert(x[i as int] == Some(xv@));
                if dst[i].is_none() {
                    assert(merge_bad(d[i as int], x[i as int]));
                    return Err(Error::TooFewShards);
                }
                let mut out = dst[i].take().unwrap();
                if out.len() != xv.len() {
                    dst[i] = Some(out);
                    proof {
                        assert(merge_bad(d[i as int], x[i as int]));
                        assert forall|j: int| 0 <= j < n implies #[trigger] crate::codec::reconstruct::opt_views(dst@)[j] == if j < i { merged(d[j], x[j]) } else { d[j] } by {
                            if j != i {
                                assert(crate::codec::reconstruct::opt_views(dst@)[j] == before[j]);
                            }
                        }
                    }
                    return Err(Error::IncorrectShardSize);
                }
                xor_into(&mut out, xv);
                dst[i] = Some(out);
            },
            None => {
                assert(x[i as int] is None);
            },
        }
        proof {
            assert forall|j: int| 0 <= j < n implies #[trigger] crate::codec::reconstruct::opt_views(dst@)[j] == if j < i + 1 { merged(d[j], x[j]) } else { d[j] } by {
                if j != i {
                    assert(crate::codec::reconstruct::opt_views(dst@)[j] == before[j]);
                } else if x[j] is Some {
                    assert(crate::codec::reconstruct::opt_views(dst@)[j] =~= merged(d[j], x[j]));
                }
            }
        }
        i = i + 1;
    }
    Ok(())
}

/// What decoding with the expected inputs `mask` leaves, from the
/// destinations `d` and the inputs `x`: refused as `decode_error` says;
/// nothing changes without a destination or without an input among the
/// first `k` expected; more than `k` expected inputs are refused; otherwise
/// each destination gets the share of the inputs present added, unless the
/// decode matrix of the expected inputs is singular, which changes nothing.
pub open spec fn decode_outcome(
    m: Seq<Seq<u8>>,
    d: Seq<Option<Seq<u8>>>,
    mask: Seq<bool>,
    x: Seq<Option<Seq<u8>>>,
    fin: Seq<Option<Seq<u8>>>,
    k: nat,
    total: nat,
    r: Result<(), Error>,
) -> bool {
    let v = marked(mask, total);
    match decode_error(d, mask, x, k, total) {
        Some(e) => r == Err::<(), Error>(e) && fin == d,
        None => if (forall|i: int| 0 <= i < total ==> #[trigger] d[i] is None)
            || (forall|c: int| 0 <= c < k ==> #[trigger] x[v[c] as int] is None) {
            r is Ok && fin == d
        } else if v.len() != k {
            r == Err::<(), Error>(Error::TooFewShardsPresent) && fin == d
        } else {
            ||| (r is Ok && exists|inv: Seq<Seq<u8>>| {
                &&& is_matrix(inv, k as int, k as int)
                &&& #[trigger] is_inverse(inv, rows_at(m, v), k)
                &&& fin.len() == total
                &&& forall|idx: int| 0 <= idx < total ==> #[trigger] fin[idx] == if d[idx] is Some {
                    Some(Seq::new(content(d[idx]).len(), |p: int| content(d[idx])[p] ^ decode_share(m, inv, k, idx, x, v, p)))
                } else {
                    None
                }
            })
            ||| (r == Err::<(), Error>(Error::InvalidCustomMatrix) && fin == d && singular(rows_at(m, v), k))
        },
    }
}

impl ReedSolomon {
    /// The decode coefficients of shard `idx` for the expected inputs.
    fn decode_row(&self, inv: &Matrix, idx: usize) -> (row: Vec<u8>)
        requires
            self.wf(),
            self.family() == CodecFamily::Classic,
            inv.wf(),
            inv.rows() == self.data_count(),
            inv.cols() == self.data_count(),
            idx < self.data_count() + self.parity_count(),
        ensures
            row@.len() == self.data_count(),
            forall|c: int| 0 <= c < self.data_count() ==> #[trigger] row@[c] == decode_coef(self.matrix_view(), inv@, self.data_count() as nat, idx as int, c),
    {
        proof {
            self.lemma_fields();
            self.lemma_classic_matrix();
            inv.lemma_view();
        }
        let k = self.data_shard_count;
        let mut row: Vec<u8> = Vec::with_capacity(k);
        let mut col: usize = 0;
        while col < k
            invariant
                k == self.data_count(),
                inv.wf(),
                inv.rows() == k,
                inv.cols() == k,
                is_matrix(inv@, k as int, k as int),
                self.matrix.wf(),
                self.matrix.rows() == self.data_count() + self.parity_count(),
                self.matrix.cols() == k,
                self.matrix_view() == self.matrix@,
                idx < self.data_count() + self.parity_count(),
                col <= k,
                row@.len() == col,
                forall|c: int| 0 <= c < col ==> #[trigger] row@[c] == decode_coef(self.matrix_view(), inv@, k as nat, idx as int, c),
            decreases k - col,
        {
            if idx < k {
                row.push(inv.get(idx, col));
            } else {
                let mut acc: u8 = 0;
                let mut i: usize = 0;
                while i < k
                    invariant
                        k == self.data_count(),
                        inv.wf(),
                        inv.rows() == k,
                        inv.cols() == k,
                        self.matrix.wf(),
                        self.matrix.rows() == self.data_count() + self.parity_count(),
                        self.matrix.cols() == k,
                        self.matrix_view() == self.matrix@,
                        idx < self.data_count() + self.parity_count(),
                        col < k,
                        i <= k,
                        acc == xsum(i as nat, |t: int| gf_mul(self.matrix_view()[idx as int][t], inv@[t][col as int])),
                    decreases k - i,
                {
                    acc = acc ^ crate::galois_8::mul(self.matrix.get(idx, i), inv.get(i, col));
                    i = i + 1;
                }
                row.push(acc);
            }
            col = col + 1;
        }
        row
    }

    /// Progressive decoding. With the expected inputs `expect_input` (a flag
    /// per shard, exactly `data_shard_count` of them set), add to each present
    /// destination the share that the inputs present contribute to its shard;
    /// without them, add each input to its destination.
    pub fn decode_idx(
        &self,
        dst: &mut [Option<Vec<u8>>],
        expect_input: Option<&[bool]>,
        input: &[Option<Vec<u8>>],
    ) -> (r: Result<(), Error>)
        requires
            self.wf(),
        ensures
            final(dst)@.len() == old(dst)@.len(),
            self.family() != CodecFamily::Classic ==> r == Err::<(), Error>(Error::UnsupportedCodecFamily)
                && final(dst)@ == old(dst)@,
            self.family() == CodecFamily::Classic ==> {
                let d = crate::codec::reconstruct::opt_views(old(dst)@);
                let x = crate::codec::reconstruct::opt_views(input@);
                let fin = crate::codec::reconstruct::opt_views(final(dst)@);
                let total = self.data_count() + self.parity_count();
                if d.len() != total || x.len() != total {
                    r == Err::<(), Error>(Error::TooFewShards) && fin == d
                } else {
                    match expect_input {
                        Some(mask) => decode_outcome(self.matrix_view(), d, mask@, x, fin, self.data_count() as nat, total as nat, r),
                        None => {
                            &&& (forall|i: int| 0 <= i < d.len() ==> !merge_bad(#[trigger] d[i], x[i])) ==> r is Ok
                                && forall|i: int| 0 <= i < d.len() ==> #[trigger] fin[i] == merged(d[i], x[i])
                            &&& (exists|i: int| 0 <= i < d.len() && merge_bad(#[trigger] d[i], x[i])) ==> r is Err
                            &&& r is Err ==> exists|i0: int| 0 <= i0 < d.len() && merge_bad(#[trigger] d[i0], x[i0])
                                && (forall|j: int| 0 <= j < i0 ==> !merge_bad(#[trigger] d[j], x[j]))
                                && r == Err::<(), Error>(merge_error(d[i0]))
                                && forall|j: int| 0 <= j < d.len() ==> #[trigger] fin[j] == if j < i0 { merged(d[j], x[j]) } else { d[j] }
                        },
                    }
                }
            },
    {
        proof {
            self.lemma_fields();
        }
        if self.codec_family != CodecFamily::Classic {
            return Err(Error::UnsupportedCodecFamily);
        }
        let k = self.data_shard_count;
        let total = self.total_shard_count;
        if dst.len() != total || input.len() != total {
            return Err(Error::TooFewShards);
        }
        let mask = match expect_input {
            Some(mask) => mask,
            None => return merge_shards(dst, input),
        };
        let ghost d = crate::codec::reconstruct::opt_views(dst@);
        let ghost x = crate::codec::reconstruct::opt_views(input@);
        if mask.len() != total {
            return Err(Error::InvalidShardFlags);
        }
        let valid_indices = marked_indices(mask);
        let ghost v = valid_indices@;
        proof {
            lemma_marked(mask@, total as nat);
        }
        if valid_indices.len() < k {
            return Err(Error::TooFewShardsPresent);
        }
        let (shard_len, consistent) = common_shard_len(input, dst);
        if shard_len.is_none() {
            proof {
                assert forall|i: int| 0 <= i < (x + d).len() implies #[trigger] (x + d)[i] is None by {
                    assert(all_shards(input@, dst@)[i] is None);
                }
            }
            return Err(Error::TooFewShardsPresent);
        }
        if !consistent {
            return Err(Error::IncorrectShardSize);
        }
        let ghost len = shard_len->0;
        proof {
            assert forall|i: int| 0 <= i < total && d[i] is Some implies #[trigger] content(d[i]).len() == len by {
                assert(all_shards(input@, dst@)[total + i] == d[i]);
            }
            assert forall|i: int| 0 <= i < total && x[i] is Some implies #[trigger] content(x[i]).len() == len by {
                assert(all_shards(input@, dst@)[i] == x[i]);
            }
            assert(!lengths_differ(x + d));
        }
        let mut any_output = false;
        let mut i: usize = 0;
        while i < total
            invariant
                d == crate::codec::reconstruct::opt_views(dst@),
                dst@.len() == total,
                i <= total,
                any_output == exists|j: int| 0 <= j < i && #[trigger] d[j] is Some,
            decreases total - i,
        {
            if dst[i].is_some() {
                assert(d[i as int] is Some);
                any_output = true;
            } else {
                assert(d[i as int] is None);
            }
            i = i + 1;
        }
        if !any_output {
            return Ok(());
        }
        let mut any_input = false;
        let mut c: usize = 0;
        while c < k
            invariant
                x == crate::codec::reconstruct::opt_views(input@),
                input@.len() == total,
                v == valid_indices@,
                k <= v.len(),
                forall|j: int| 0 <= j < v.len() ==> #[trigger] v[j] < total,
                c <= k,
                any_input == exists|j: int| 0 <= j < c && #[trigger] x[v[j] as int] is Some,
            decreases k - c,
        {
            if input[valid_indices[c]].is_some() {
                assert(x[v[c as int] as int] is Some);
                any_input = true;
            } else {
                assert(x[v[c as int] as int] is None);
            }
            c = c + 1;
        }
        if !any_input {
            return Ok(());
        }
        let inv = match self.get_data_decode_matrix(valid_indices.as_slice()) {
            Ok(m) => m,
            Err(e) => return Err(e),
        };
        let mut idx: usize = 0;
        while idx < total
            invariant
                self.wf(),
                self.family() == CodecFamily::Classic,
                k == self.data_count(),
                total == self.data_count() + self.parity_count(),
                inv.wf(),
                inv.rows() == k,
                inv.cols() == k,
                d.len() == total,
                dst@.len() == total,
                x == crate::codec::reconstruct::opt_views(input@),
                input@.len() == total,
                v == valid_indices@,
                v.len() == k,
                forall|j: int| 0 <= j < k ==> #[trigger] v[j] < total,
                forall|j: int| 0 <= j < total && d[j] is Some ==> #[trigger] content(d[j]).len() == len,
                forall|j: int| 0 <= j < total && x[j] is Some ==> #[trigger] content(x[j]).len() == len,
                idx <= total,
                forall|j: int| 0 <= j < total ==> #[trigger] crate::codec::reconstruct::opt_views(dst@)[j] == if j < idx && d[j] is Some {
                    Some(Seq::new(content(d[j]).len(), |p: int| content(d[j])[p] ^ decode_share(self.matrix_view(), inv@, k as nat, j, x, v, p)))
                } else {
                    d[j]
                },
            decreases total - idx,
        {
            let ghost before = crate::codec::reconstruct::opt_views(dst@);
            if dst[idx].is_some() {
                assert(before[idx as int] == d[idx as int]);
                let coef = self.decode_row(&inv, idx);
                let mut out = dst[idx].take().unwrap();
                let ghost start = out@;
                assert(d[idx as int] == Some(start));
                assert(content(d[idx as int]).len() == len);
                proof {
                    assert forall|p: int| 0 <= p < len implies #[trigger] out@[p] == start[p] ^ xsum(0, |t: int| if x[v[t] as int] is Some {
                        gf_mul(coef@[t], content(x[v[t] as int])[p])
                    } else {
                        0u8
                    }) by {
                        lemma_add_group(start[p], 0u8);
                    }
                }
                let mut c: usize = 0;
                while c < k
                    invariant
                        k == self.data_count(),
                        coef@.len() == k,
                        x == crate::codec::reconstruct::opt_views(input@),
                        input@.len() == total,
                        v == valid_indices@,
                        v.len() == k,
                        forall|j: int| 0 <= j < k ==> #[trigger] v[j] < total,
                        forall|j: int| 0 <= j < total && x[j] is Some ==> #[trigger] content(x[j]).len() == len,
                        start.len() == len,
                        out@.len() == len,
                        c <= k,
                        forall|p: int| 0 <= p < len ==> #[trigger] out@[p] == start[p] ^ xsum(c as nat, |t: int| if x[v[t] as int] is Some {
                            gf_mul(coef@[t], content(x[v[t] as int])[p])
                        } else {
                            0u8
                        }),
                    decreases k - c,
                {
                    let ghost prev = out@;
                    let ghost vc = v[c as int] as int;
                    match &input[valid_indices[c]] {
                        Some(xv) => {
                            assert(x[vc] == Some(xv@));
                            assert(content(x[vc]).len() == len);
                            crate::galois_8::mul_slice_xor(coef[c], xv.as_slice(), out.as_mut_slice());
                            proof {
                                assert forall|p: int| 0 <= p < len implies #[trigger] out@[p] == start[p] ^ xsum((c + 1) as nat, |t: int| if x[v[t] as int] is Some {
                                    gf_mul(coef@[t], content(x[v[t] as int])[p])
                                } else {
                                    0u8
                                }) by {
                                    let f = |t: int| if x[v[t] as int] is Some { gf_mul(coef@[t], content(x[v[t] as int])[p]) } else { 0u8 };
                                    assert(prev[p] == start[p] ^ xsum(c as nat, f));
                                    crate::galois_8::lemma_add_associative(start[p], xsum(c as nat, f), f(c as int));
                                }
                            }
                        },
                        None => {
                            assert(x[vc] is None);
                            proof {
                                assert forall|p: int| 0 <= p < len implies #[trigger] out@[p] == start[p] ^ xsum((c + 1) as nat, |t: int| if x[v[t] as int] is Some {
                                    gf_mul(coef@[t], content(x[v[t] as int])[p])
                                } else {
                                    0u8
                                }) by {
                                    let f = |t: int| if x[v[t] as int] is Some { gf_mul(coef@[t], content(x[v[t] as int])[p]) } else { 0u8 };
                                    lemma_add_group(xsum(c as nat, f), 0u8);
                                }
                            }
                        },
                    }
                    c = c + 1;
                }
                dst[idx] = Some(out);
                proof {
                    let m = self.matrix_view();
                    assert forall|j: int| 0 <= j < total implies #[trigger] crate::codec::reconstruct::opt_views(dst@)[j] == if j < idx + 1 && d[j] is Some {
                        Some(Seq::new(content(d[j]).len(), |p: int| content(d[j])[p] ^ decode_share(m, inv@, k as nat, j, x, v, p)))
                    } else {
                        d[j]
                    } by {
                        if j == idx {
                            assert forall|p: int| 0 <= p < len implies #[trigger] out@[p] == content(d[j])[p] ^ decode_share(m, inv@, k as nat, j, x, v, p) by {
                                crate::matrix::lemma_xsum_ext(
                                    k as nat,
                                    |t: int| if x[v[t] as int] is Some { gf_mul(coef@[t], content(x[v[t] as int])[p]) } else { 0u8 },
                                    |t: int| if x[v[t] as int] is Some { gf_mul(decode_coef(m, inv@, k as nat, j, t), content(x[v[t] as int])[p]) } else { 0u8 },
                                );
                            }
                            assert(out@ =~= Seq::new(content(d[j]).len(), |p: int| content(d[j])[p] ^ decode_share(m, inv@, k as nat, j, x, v, p)));
                        } else {
                            assert(crate::codec::reconstruct::opt_views(dst@)[j] == before[j]);
                        }
                    }
                }
            } else {
                assert(before[idx as int] == d[idx as int]);
            }
            idx = idx + 1;
        }
        proof {
            inv.lemma_view();
            let fin = crate::codec::reconstruct::opt_views(dst@);
            assert(fin.len() == total);
            assert forall|j: int| 0 <= j < total implies #[trigger] fin[j] == if d[j] is Some {
                Some(Seq::new(content(d[j]).len(), |p: int| content(d[j])[p] ^ decode_share(self.matrix_view(), inv@, k as nat, j, x, v, p)))
            } else {
                None
            } by {
                if d[j] is None {
                    assert(fin[j] == d[j]);
                }
            }
        }
        Ok(())
    }
}

/// Every shard of an encoded set is its encoding row applied to the data
/// shards (the data shards too: their rows are the identity's).
proof fn lemma_encoded_row(m: Seq<Seq<u8>>, full: Seq<Seq<u8>>, k: nat, total: nat, len: nat, row: int, p: int)
    requires
        is_matrix(m, total as int, k as int),
        is_systematic(m, k),
        k <= total,
        full.len() == total,
        uniform(full, len),
        is_encoded(m, full, k, total),
        0 <= row < total,
        0 <= p < len,
    ensures
        full[row][p] == prod_entry(m, full, k, row, p),
{
    if row >= k {
        assert(full[row][p] == code_byte(m[row], full, k, p));
    } else {
        lemma_xsum_ext(
            k,
            |t: int| gf_mul(m[row][t], full[t][p]),
            |t: int| gf_mul(id_entry(row, t), (|l: int| full[l][p])(t)),
        );
        lemma_times_identity(k, |l: int| full[l][p], row);
    }
}

/// The share of all the expected inputs of an encoded set of shards is the
/// shard itself: decoding from every expected input gives back each shard.
pub proof fn lemma_decode_share_recovers(
    rs: ReedSolomon,
    full: Seq<Seq<u8>>,
    inv: Seq<Seq<u8>>,
    v: Seq<usize>,
    x: Seq<Option<Seq<u8>>>,
    idx: int,
    p: int,
)
    requires
        rs.wf(),
        rs.family() == CodecFamily::Classic,
        full.len() == rs.data_count() + rs.parity_count(),
        uniform(full, full[0].len()),
        is_encoded(rs.matrix_view(), full, rs.data_count() as nat, (rs.data_count() + rs.parity_count()) as nat),
        v.len() == rs.data_count(),
        forall|c: int| 0 <= c < v.len() ==> #[trigger] v[c] < full.len(),
        is_matrix(inv, rs.data_count() as int, rs.data_count() as int),
        is_inverse(inv, rows_at(rs.matrix_view(), v), rs.data_count() as nat),
        x.len() == full.len(),
        forall|c: int| 0 <= c < v.len() ==> #[trigger] x[v[c] as int] == Some(full[v[c] as int]),
        0 <= idx < full.len(),
        0 <= p < full[0].len(),
    ensures
        decode_share(rs.matrix_view(), inv, rs.data_count() as nat, idx, x, v, p) == full[idx][p],
{
    let k = rs.data_count() as nat;
    let total = (rs.data_count() + rs.parity_count()) as nat;
    let m = rs.matrix_view();
    let len = full[0].len();
    let sm = rows_at(m, v);
    rs.lemma_classic_matrix();
    assert forall|c: int| 0 <= c < k implies #[trigger] full[v[c] as int][p] == prod_entry(sm, full, k, c, p) by {
        lemma_encoded_row(m, full, k, total, len, v[c] as int, p);
    }
    let q = Seq::new(k, |c: int| Seq::new(len, |t: int| prod_entry(sm, full, k, c, t)));
    let share = |c: int| if x[v[c] as int] is Some {
        gf_mul(decode_coef(m, inv, k, idx, c), content(x[v[c] as int])[p])
    } else {
        0u8
    };
    let share2 = |c: int| gf_mul(decode_coef(m, inv, k, idx, c), q[c][p]);
    assert forall|c: int| 0 <= c < k implies #[trigger] share(c) == share2(c) by {
        assert(x[v[c] as int] == Some(full[v[c] as int]));
    }
    lemma_xsum_ext(k, share, share2);
    assert(decode_share(m, inv, k, idx, x, v, p) == xsum(k, share));
    // the inverse applied to the encoded expected inputs gives the data shards
    assert forall|l: int| 0 <= l < k implies #[trigger] prod_entry(inv, q, k, l, p) == full[l][p] by {
        lemma_assoc_entry(inv, sm, full, k, l, p);
        lemma_xsum_ext(k, |c: int| gf_mul(inv[l][c], q[c][p]), |c: int| gf_mul(inv[l][c], prod_entry(sm, full, k, c, p)));
        lemma_xsum_ext(
            k,
            |t: int| gf_mul(prod_entry(inv, sm, k, l, t), full[t][p]),
            |t: int| gf_mul(id_entry(l, t), (|u: int| full[u][p])(t)),
        );
        lemma_times_identity(k, |u: int| full[u][p], l);
    }
    if idx < k {
        lemma_xsum_ext(k, share2, |c: int| gf_mul(inv[idx][c], q[c][p]));
        assert(prod_entry(inv, q, k, idx, p) == full[idx][p]);
    } else {
        assert(full[idx][p] == code_byte(m[idx], full, k, p));
        lemma_assoc_entry(m, inv, q, k, idx, p);
        lemma_xsum_ext(k, |l: int| gf_mul(m[idx][l], prod_entry(inv, q, k, l, p)), |l: int| gf_mul(m[idx][l], full[l][p]));
        lemma_xsum_ext(k, share2, |t: int| gf_mul(prod_entry(m, inv, k, idx, t), q[t][p]));
    }
}

/// Shares add up: when every expected input is in at most one of `xa` and
/// `xb`, and `xc` holds it, the share of `xc` is the sum of the other two.
pub proof fn lemma_decode_share_split(
    m: Seq<Seq<u8>>,
    inv: Seq<Seq<u8>>,
    k: nat,
    idx: int,
    xa: Seq<Option<Seq<u8>>>,
    xb: Seq<Option<Seq<u8>>>,
    xc: Seq<Option<Seq<u8>>>,
    v: Seq<usize>,
    p: int,
)
    requires
        forall|c: int| 0 <= c < k ==> (#[trigger] xa[v[c] as int] is None || xb[v[c] as int] is None)
            && xc[v[c] as int] == if xa[v[c] as int] is Some { xa[v[c] as int] } else { xb[v[c] as int] },
    ensures
        decode_share(m, inv, k, idx, xc, v, p) == decode_share(m, inv, k, idx, xa, v, p) ^ decode_share(m, inv, k, idx, xb, v, p),
{
    let fa = |c: int| if xa[v[c] as int] is Some {
        gf_mul(decode_coef(m, inv, k, idx, c), content(xa[v[c] as int])[p])
    } else {
        0u8
    };
    let fb = |c: int| if xb[v[c] as int] is Some {
        gf_mul(decode_coef(m, inv, k, idx, c), content(xb[v[c] as int])[p])
    } else {
        0u8
    };
    let fc = |c: int| if xc[v[c] as int] is Some {
        gf_mul(decode_coef(m, inv, k, idx, c), content(xc[v[c] as int])[p])
    } else {
        0u8
    };
    assert forall|c: int| 0 <= c < k implies #[trigger] fc(c) == fa(c) ^ fb(c) by {
        assert(xa[v[c] as int] is None || xb[v[c] as int] is None);
        lemma_add_group(fa(c), 0u8);
        lemma_add_group(0u8, fb(c));
        lemma_add_group(fb(c), 0u8);
    }
    crate::matrix::lemma_xsum_add(k, fa, fb, fc);
    assert(decode_share(m, inv, k, idx, xa, v, p) == xsum(k, fa));
    assert(decode_share(m, inv, k, idx, xb, v, p) == xsum(k, fb));
    assert(decode_share(m, inv, k, idx, xc, v, p) == xsum(k, fc));
}

/// The share depends on the decode matrix by its entries only.
proof fn lemma_decode_share_same_inverse(
    m: Seq<Seq<u8>>,
    inv1: Seq<Seq<u8>>,
    inv2: Seq<Seq<u8>>,
    k: nat,
    idx: int,
    x: Seq<Option<Seq<u8>>>,
    v: Seq<usize>,
    p: int,
)
    requires
        0 <= idx,
        forall|i: int, j: int| 0 <= i < k && 0 <= j < k ==> #[trigger] inv1[i][j] == inv2[i][j],
    ensures
        decode_share(m, inv1, k, idx, x, v, p) == decode_share(m, inv2, k, idx, x, v, p),
{
    assert forall|c: int| 0 <= c < k implies #[trigger] decode_coef(m, inv1, k, idx, c) == decode_coef(m, inv2, k, idx, c) by {
        if idx >= k {
            lemma_xsum_ext(k, |i: int| gf_mul(m[idx][i], inv1[i][c]), |i: int| gf_mul(m[idx][i], inv2[i][c]));
        }
    }
    lemma_xsum_ext(
        k,
        |c: int| if x[v[c] as int] is Some { gf_mul(decode_coef(m, inv1, k, idx, c), content(x[v[c] as int])[p]) } else { 0u8 },
        |c: int| if x[v[c] as int] is Some { gf_mul(decode_coef(m, inv2, k, idx, c), content(x[v[c] as int])[p]) } else { 0u8 },
    );
}

/// With no expected input present the share is zero.
proof fn lemma_decode_share_none(m: Seq<Seq<u8>>, inv: Seq<Seq<u8>>, k: nat, idx: int, x: Seq<Option<Seq<u8>>>, v: Seq<usize>, p: int)
    requires
        forall|c: int| 0 <= c < k ==> #[trigger] x[v[c] as int] is None,
    ensures
        decode_share(m, inv, k, idx, x, v, p) == 0,
{
    crate::matrix::lemma_xsum_zero(
        k,
        |c: int| if x[v[c] as int] is Some { gf_mul(decode_coef(m, inv, k, idx, c), content(x[v[c] as int])[p]) } else { 0u8 },
    );
}

/// What a successful decoding call leaves: each destination plus the share
/// of the inputs, for any inverse of the expected rows.
proof fn lemma_decode_step(
    m: Seq<Seq<u8>>,
    d: Seq<Option<Seq<u8>>>,
    mask: Seq<bool>,
    x: Seq<Option<Seq<u8>>>,
    fin: Seq<Option<Seq<u8>>>,
    k: nat,
    total: nat,
    r: Result<(), Error>,
    inv: Seq<Seq<u8>>,
)
    requires
        d.len() == total,
        marked(mask, total).len() == k,
        is_inverse(inv, rows_at(m, marked(mask, total)), k),
        decode_outcome(m, d, mask, x, fin, k, total, r),
        r is Ok,
    ensures
        fin.len() == total,
        forall|idx: int| 0 <= idx < total ==> #[trigger] fin[idx] == if d[idx] is Some {
            Some(Seq::new(content(d[idx]).len(), |p: int| content(d[idx])[p] ^ decode_share(m, inv, k, idx, x, marked(mask, total), p)))
        } else {
            None
        },
{
    let v = marked(mask, total);
    if (forall|i: int| 0 <= i < total ==> #[trigger] d[i] is None) || (forall|c: int| 0 <= c < k ==> #[trigger] x[v[c] as int] is None) {
        assert forall|idx: int| 0 <= idx < total implies #[trigger] fin[idx] == if d[idx] is Some {
            Some(Seq::new(content(d[idx]).len(), |p: int| content(d[idx])[p] ^ decode_share(m, inv, k, idx, x, v, p)))
        } else {
            None
        } by {
            if d[idx] is Some {
                let dd = content(d[idx]);
                assert forall|p: int| 0 <= p < dd.len() implies #[trigger] dd[p] == dd[p] ^ decode_share(m, inv, k, idx, x, v, p) by {
                    lemma_decode_share_none(m, inv, k, idx, x, v, p);
                    lemma_add_group(dd[p], 0u8);
                }
                assert(Seq::new(dd.len(), |p: int| dd[p] ^ decode_share(m, inv, k, idx, x, v, p)) =~= dd);
            }
        }
    } else {
        let inv2 = choose|inv2: Seq<Seq<u8>>| {
            &&& is_matrix(inv2, k as int, k as int)
            &&& #[trigger] is_inverse(inv2, rows_at(m, v), k)
            &&& fin.len() == total
            &&& forall|idx: int| 0 <= idx < total ==> #[trigger] fin[idx] == if d[idx] is Some {
                Some(Seq::new(content(d[idx]).len(), |p: int| content(d[idx])[p] ^ decode_share(m, inv2, k, idx, x, v, p)))
            } else {
                None
            }
        };
        crate::matrix::lemma_inverse_unique(inv2, inv, rows_at(m, v), k);
        assert forall|idx: int| 0 <= idx < total implies #[trigger] fin[idx] == if d[idx] is Some {
            Some(Seq::new(content(d[idx]).len(), |p: int| content(d[idx])[p] ^ decode_share(m, inv, k, idx, x, v, p)))
        } else {
            None
        } by {
            if d[idx] is Some {
                let dd = content(d[idx]);
                assert forall|p: int| 0 <= p < dd.len() implies #[trigger] (dd[p] ^ decode_share(m, inv2, k, idx, x, v, p)) == dd[p] ^ decode_share(m, inv, k, idx, x, v, p) by {
                    lemma_decode_share_same_inverse(m, inv2, inv, k, idx, x, v, p);
                }
                assert(Seq::new(dd.len(), |p: int| dd[p] ^ decode_share(m, inv2, k, idx, x, v, p))
                    =~= Seq::new(dd.len(), |p: int| dd[p] ^ decode_share(m, inv, k, idx, x, v, p)));
            }
        }
    }
}

/// Decoding is progressive: starting from zeroed destinations, two successful
/// calls whose inputs split the expected shards of an encoded set between
/// them (each expected shard given to exactly one call) leave every
/// destination holding its shard.
pub proof fn lemma_decode_idx_progressive(
    rs: ReedSolomon,
    full: Seq<Seq<u8>>,
    mask: Seq<bool>,
    d0: Seq<Option<Seq<u8>>>,
    xa: Seq<Option<Seq<u8>>>,
    d1: Seq<Option<Seq<u8>>>,
    r1: Result<(), Error>,
    xb: Seq<Option<Seq<u8>>>,
    d2: Seq<Option<Seq<u8>>>,
    r2: Result<(), Error>,
)
    requires
        rs.wf(),
        rs.family() == CodecFamily::Classic,
        full.len() == rs.data_count() + rs.parity_count(),
        uniform(full, full[0].len()),
        is_encoded(rs.matrix_view(), full, rs.data_count() as nat, (rs.data_count() + rs.parity_count()) as nat),
        marked(mask, (rs.data_count() + rs.parity_count()) as nat).len() == rs.data_count(),
        d0.len() == full.len(),
        forall|i: int| 0 <= i < d0.len() && #[trigger] d0[i] is Some ==> content(d0[i]) == Seq::new(full[0].len(), |p: int| 0u8),
        forall|c: int| 0 <= c < rs.data_count() ==> {
            let s = #[trigger] marked(mask, (rs.data_count() + rs.parity_count()) as nat)[c] as int;
            ||| (xa[s] == Some(full[s]) && xb[s] is None)
            ||| (xa[s] is None && xb[s] == Some(full[s]))
        },
        decode_outcome(rs.matrix_view(), d0, mask, xa, d1, rs.data_count() as nat, (rs.data_count() + rs.parity_count()) as nat, r1),
        r1 is Ok,
        decode_outcome(rs.matrix_view(), d1, mask, xb, d2, rs.data_count() as nat, (rs.data_count() + rs.parity_count()) as nat, r2),
        r2 is Ok,
    ensures
        forall|idx: int| 0 <= idx < full.len() ==> #[trigger] d2[idx] == if d0[idx] is Some { Some(full[idx]) } else { None },
{
    let k = rs.data_count() as nat;
    let total = (rs.data_count() + rs.parity_count()) as nat;
    let m = rs.matrix_view();
    let v = marked(mask, total);
    let len = full[0].len();
    rs.lemma_classic_matrix();
    assert(decode_error(d0, mask, xa, k, total) is None);
    assert(mask.len() == total);
    lemma_marked(mask, total);
    if forall|i: int| 0 <= i < total ==> #[trigger] d0[i] is None {
        assert(d1 == d0);
        assert(decode_error(d1, mask, xb, k, total) is None);
        assert(d2 == d1);
    } else {
        let inv = if forall|c: int| 0 <= c < k ==> #[trigger] xa[v[c] as int] is None {
            assert(d1 == d0);
            assert(decode_error(d1, mask, xb, k, total) is None);
            assert(xb[v[0] as int] is Some);
            assert(!(forall|c: int| 0 <= c < k ==> #[trigger] xb[v[c] as int] is None));
            assert(exists|inv: Seq<Seq<u8>>| is_matrix(inv, k as int, k as int) && #[trigger] is_inverse(inv, rows_at(m, v), k));
            choose|inv: Seq<Seq<u8>>| is_matrix(inv, k as int, k as int) && #[trigger] is_inverse(inv, rows_at(m, v), k)
        } else {
            assert(exists|inv: Seq<Seq<u8>>| is_matrix(inv, k as int, k as int) && #[trigger] is_inverse(inv, rows_at(m, v), k));
            choose|inv: Seq<Seq<u8>>| is_matrix(inv, k as int, k as int) && #[trigger] is_inverse(inv, rows_at(m, v), k)
        };
        lemma_decode_step(m, d0, mask, xa, d1, k, total, r1, inv);
        lemma_decode_step(m, d1, mask, xb, d2, k, total, r2, inv);
        let xc = Seq::new(total, |i: int| if xa[i] is Some { xa[i] } else { xb[i] });
        assert forall|idx: int| 0 <= idx < full.len() implies #[trigger] d2[idx] == if d0[idx] is Some { Some(full[idx]) } else { None } by {
            if d0[idx] is Some {
                assert forall|p: int| 0 <= p < len implies (0u8 ^ decode_share(m, inv, k, idx, xa, v, p)) ^ decode_share(m, inv, k, idx, xb, v, p)
                    == #[trigger] full[idx][p] by {
                    lemma_decode_share_split(m, inv, k, idx, xa, xb, xc, v, p);
                    lemma_decode_share_recovers(rs, full, inv, v, xc, idx, p);
                    lemma_add_group(decode_share(m, inv, k, idx, xa, v, p), 0u8);
                }
                let c1 = content(d1[idx]);
                assert(c1 =~= Seq::new(len, |p: int| 0u8 ^ decode_share(m, inv, k, idx, xa, v, p)));
                assert(content(d2[idx]) =~= full[idx]);
            }
        }
    }
}

/// With a code that loses nothing, decoding from `data_shard_count`
/// expected inputs never meets a singular decode matrix: a call whose shards
/// pass the checks succeeds.
pub proof fn lemma_decode_idx_mds_succeeds(
    rs: ReedSolomon,
    d: Seq<Option<Seq<u8>>>,
    mask: Seq<bool>,
    x: Seq<Option<Seq<u8>>>,
    fin: Seq<Option<Seq<u8>>>,
    r: Result<(), Error>,
)
    requires
        rs.wf(),
        rs.family() == CodecFamily::Classic,
        is_mds_code(rs.matrix_view(), rs.data_count() as nat, (rs.data_count() + rs.parity_count()) as nat),
        mask.len() == rs.data_count() + rs.parity_count(),
        marked(mask, (rs.data_count() + rs.parity_count()) as nat).len() == rs.data_count(),
        decode_error(d, mask, x, rs.data_count() as nat, (rs.data_count() + rs.parity_count()) as nat) is None,
        decode_outcome(rs.matrix_view(), d, mask, x, fin, rs.data_count() as nat, (rs.data_count() + rs.parity_count()) as nat, r),
    ensures
        r is Ok,
{
    let k = rs.data_count() as nat;
    let total = (rs.data_count() + rs.parity_count()) as nat;
    rs.lemma_classic_matrix();
    lemma_marked(mask, total);
    lemma_mds_rows_nonsingular(rs.matrix_view(), k, total, marked(mask, total));
}

} // verus!
