//! Encoding with the data and parity shards apart, one data shard at a time,
//! and updating parity for changed data shards.
use vstd::prelude::*;

use crate::codec::CodecFamily;
use crate::codec::classic::{code_byte, code_row, shards_error};
use crate::codec::reed_solomon::{ReedSolomon, shard_views};
use crate::errors::Error;
use crate::galois_8::{gf_mul, lemma_add_associative, lemma_add_group, lemma_mul_distributive};
use crate::codec::reconstruct::{content, opt_views};
use crate::matrix::{is_matrix, lemma_xsum_add, lemma_xsum_ext, xsum};

verus! {

/// All shards have the length of the first, which is not zero: `EmptyShard`
/// when it is, `IncorrectShardSize` when another differs.
pub open spec fn lengths_check(s: Seq<Seq<u8>>) -> Option<Error> {
    if s[0].len() == 0 {
        Some(Error::EmptyShard)
    } else if exists|i: int| 0 <= i < s.len() && #[trigger] s[i].len() != s[0].len() {
        Some(Error::IncorrectShardSize)
    } else {
        None
    }
}

/// What `encode_sep` reports, or `None`: the data count, the parity count,
/// the data lengths, the parity lengths, then whether they agree.
pub open spec fn sep_error(data: Seq<Seq<u8>>, parity: Seq<Seq<u8>>, k: int, p: int) -> Option<Error> {
    if data.len() < k {
        Some(Error::TooFewDataShards)
    } else if data.len() > k {
        Some(Error::TooManyDataShards)
    } else if parity.len() < p {
        Some(Error::TooFewParityShards)
    } else if parity.len() > p {
        Some(Error::TooManyParityShards)
    } else if lengths_check(data) is Some {
        lengths_check(data)
    } else if lengths_check(parity) is Some {
        lengths_check(parity)
    } else if parity[0].len() != data[0].len() {
        Some(Error::IncorrectShardSize)
    } else {
        None
    }
}

/// What `encode_single_sep` reports, or `None`: the parity count, the parity
/// lengths, the data shard's length, then its index.
pub open spec fn single_sep_error(i: int, single: Seq<u8>, parity: Seq<Seq<u8>>, k: int, p: int) -> Option<Error> {
    if parity.len() < p {
        Some(Error::TooFewParityShards)
    } else if parity.len() > p {
        Some(Error::TooManyParityShards)
    } else if lengths_check(parity) is Some {
        lengths_check(parity)
    } else if single.len() != parity[0].len() {
        Some(Error::IncorrectShardSize)
    } else if i >= k {
        Some(Error::InvalidIndex)
    } else {
        None
    }
}

/// Byte `b` of parity shard `j` once data shard `i` (`single`) is coded into
/// it: its share alone for the first data shard, added to what is there for
/// the others.
pub open spec fn single_step(m: Seq<Seq<u8>>, k: nat, i: int, single: Seq<u8>, old: Seq<u8>, j: int, b: int) -> u8 {
    if i == 0 {
        gf_mul(m[k + j][0], single[b])
    } else {
        old[b] ^ gf_mul(m[k + j][i], single[b])
    }
}

/// The parity shards hold the code of the first `i` data shards of `data`:
/// byte `b` of parity shard `j` is the sum over `c < i` of its row's entry `c`
/// times byte `b` of data shard `c`.
pub open spec fn encoded_upto(m: Seq<Seq<u8>>, data: Seq<Seq<u8>>, parity: Seq<Seq<u8>>, k: nat, p: nat, i: nat) -> bool {
    forall|j: int, b: int| 0 <= j < p && 0 <= b < parity[j].len() ==> #[trigger] parity[j][b]
        == xsum(i, |c: int| gf_mul(m[k + j][c], data[c][b]))
}

impl ReedSolomon {
    /// Encode with the data and parity shards apart on the path the shard
    /// size calls for: the serial path, as `encode_sep`.
    pub fn encode_sep_opt(&self, data: &[Vec<u8>], parity: &mut [Vec<u8>]) -> (r: Result<(), Error>)
        requires
            self.wf(),
        ensures
            encode_sep_outcome(*self, data@, old(parity)@, final(parity)@, r),
    {
        self.encode_sep(data, parity)
    }

    /// Update the parity shards for changed data shards. `old_data` holds the
    /// data shards the parity was computed from and `changes` an entry per
    /// data shard, the new shard where it changed; each parity shard gets,
    /// for each changed data shard, its encoding entry times the difference of
    /// the old and new shard added, so that it encodes the changed data.
    pub fn update(&self, old_data: &[Vec<u8>], changes: &[Option<Vec<u8>>], parity: &mut [Vec<u8>]) -> (r: Result<(), Error>)
        requires
            self.wf(),
        ensures
            self.family() != CodecFamily::Classic ==> r == Err::<(), Error>(Error::UnsupportedCodecFamily)
                && final(parity)@ == old(parity)@,
            self.family() == CodecFamily::Classic ==> match update_error(
                shard_views(old_data@),
                opt_views(changes@),
                shard_views(old(parity)@),
                self.data_count() as int,
                self.parity_count() as int,
            ) {
                Some(e) => r == Err::<(), Error>(e) && final(parity)@ == old(parity)@,
                None => {
                    &&& r is Ok
                    &&& final(parity)@.len() == old(parity)@.len()
                    &&& forall|j: int| 0 <= j < self.parity_count() ==> (#[trigger] final(parity)@[j])@.len() == old_data@[0]@.len()
                    &&& forall|j: int, b: int| 0 <= j < self.parity_count() && 0 <= b < old_data@[0]@.len()
                        ==> #[trigger] final(parity)@[j]@[b] == old(parity)@[j]@[b] ^ xsum(
                            self.data_count() as nat,
                            |c: int| update_term(
                                self.matrix_view(),
                                self.data_count() as nat,
                                j,
                                shard_views(old_data@),
                                opt_views(changes@),
                                b,
                                c,
                            ),
                        )
                },
            },
    {
        proof {
            self.lemma_fields();
        }
        if self.codec_family != CodecFamily::Classic {
            return Err(Error::UnsupportedCodecFamily);
        }
        let k = self.data_shard_count;
        let p = self.parity_shard_count;
        let ghost ov = shard_views(old_data@);
        let ghost cv = opt_views(changes@);
        let ghost pv = shard_views(parity@);
        if old_data.len() < k || changes.len() < k {
            return Err(Error::TooFewDataShards);
        }
        if old_data.len() > k || changes.len() > k {
            return Err(Error::TooManyDataShards);
        }
        if parity.len() < p {
            return Err(Error::TooFewParityShards);
        }
        if parity.len() > p {
            return Err(Error::TooManyParityShards);
        }
        let len = old_data[0].len();
        if len == 0 {
            return Err(Error::EmptyShard);
        }
        let mut same = true;
        let mut c: usize = 0;
        while c < k
            invariant
                ov == shard_views(old_data@),
                old_data@.len() == k,
                len == ov[0].len(),
                c <= k,
                same <==> forall|a: int| 0 <= a < c ==> #[trigger] ov[a].len() == len,
            decreases k - c,
        {
            if old_data[c].len() != len {
                assert(ov[c as int].len() != ov[0].len());
                same = false;
            }
            c = c + 1;
        }
        if !same {
            return Err(Error::IncorrectShardSize);
        }
        let mut j: usize = 0;
        while j < p
            invariant
                pv == shard_views(parity@),
                parity@.len() == p,
                j <= p,
                same <==> forall|a: int| 0 <= a < j ==> #[trigger] pv[a].len() == len,
            decreases p - j,
        {
            proof {
                assert(pv[j as int] == parity@[j as int]@);
            }
            if parity[j].len() != len {
                same = false;
            }
            j = j + 1;
        }
        if !same {
            return Err(Error::IncorrectShardSize);
        }
        let mut c: usize = 0;
        while c < k
            invariant
                cv == opt_views(changes@),
                changes@.len() == k,
                c <= k,
                same <==> forall|a: int| 0 <= a < c && #[trigger] cv[a] is Some ==> content(cv[a]).len() == len,
            decreases k - c,
        {
            match &changes[c] {
                Some(new) => {
                    proof {
                        assert(cv[c as int] == Some(new@));
                    }
                    if new.len() != len {
                        same = false;
                    }
                },
                None => {
                    proof {
                        assert(cv[c as int] is None);
                    }
                },
            }
            c = c + 1;
        }
        if !same {
            return Err(Error::IncorrectShardSize);
        }
        proof {
            self.lemma_classic_matrix();
            assert forall|a: int| 0 <= a < k implies #[trigger] old_data@[a]@.len() == len by {
                assert(ov[a] == old_data@[a]@);
            }
            assert forall|a: int| 0 <= a < p implies #[trigger] parity@[a]@.len() == len by {
                assert(pv[a] == parity@[a]@);
            }
        }
        let ghost orig = parity@;
        let ghost m = self.matrix_view();
        proof {
            assert forall|a: int, b: int| 0 <= a < p && 0 <= b < len implies #[trigger] parity@[a]@[b]
                == orig[a]@[b] ^ xsum(0nat, |l: int| update_term(m, k as nat, a, ov, cv, b, l)) by {
                lemma_add_group(orig[a]@[b], 0u8);
            }
        }
        let mut c: usize = 0;
        while c < k
            invariant
                self.wf(),
                self.matrix.wf(),
                self.matrix.rows() == k + p,
                self.matrix.cols() == k,
                k + p <= 256,
                m == self.matrix@,
                is_matrix(m, (k + p) as int, k as int),
                ov == shard_views(old_data@),
                cv == opt_views(changes@),
                old_data@.len() == k,
                changes@.len() == k,
                forall|a: int| 0 <= a < k ==> #[trigger] old_data@[a]@.len() == len,
                forall|a: int| 0 <= a < k && #[trigger] cv[a] is Some ==> content(cv[a]).len() == len,
                orig.len() == p,
                parity@.len() == p,
                c <= k,
                forall|a: int| 0 <= a < p ==> (#[trigger] parity@[a])@.len() == len,
                forall|a: int, b: int| 0 <= a < p && 0 <= b < len ==> #[trigger] parity@[a]@[b]
                    == orig[a]@[b] ^ xsum(c as nat, |l: int| update_term(m, k as nat, a, ov, cv, b, l)),
            decreases k - c,
        {
            let ghost mid = parity@;
            match &changes[c] {
                Some(new) => {
                    proof {
                        assert(cv[c as int] == Some(new@));
                        assert(ov[c as int] == old_data@[c as int]@);
                    }
                    let mut j: usize = 0;
                    while j < p
                        invariant
                            self.wf(),
                            self.matrix.wf(),
                            self.matrix.rows() == k + p,
                            self.matrix.cols() == k,
                            k + p <= 256,
                            m == self.matrix@,
                            c < k,
                            ov == shard_views(old_data@),
                            cv == opt_views(changes@),
                            old_data@.len() == k,
                            cv[c as int] == Some(new@),
                            ov[c as int] == old_data@[c as int]@,
                            old_data@[c as int]@.len() == len,
                            new@.len() == len,
                            mid.len() == p,
                            parity@.len() == p,
                            j <= p,
                            forall|a: int| 0 <= a < p ==> (#[trigger] mid[a])@.len() == len,
                            forall|a: int| j <= a < p ==> #[trigger] parity@[a] == mid[a],
                            forall|a: int| 0 <= a < j ==> (#[trigger] parity@[a])@.len() == len,
                            forall|a: int, b: int| 0 <= a < j && 0 <= b < len ==> #[trigger] parity@[a]@[b]
                                == mid[a]@[b] ^ update_term(m, k as nat, a, ov, cv, b, c as int),
                        decreases p - j,
                    {
                        let coef = self.matrix.get(k + j, c);
                        let out = add_change(&parity[j], coef, &old_data[c], new);
                        let ghost before = parity@;
                        parity[j] = out;
                        proof {
                            assert forall|a: int, b: int| 0 <= a < j + 1 && 0 <= b < len implies #[trigger] parity@[a]@[b]
                                == mid[a]@[b] ^ update_term(m, k as nat, a, ov, cv, b, c as int) by {
                                if a < j {
                                    assert(parity@[a] == before[a]);
                                }
                            }
                            assert forall|a: int| 0 <= a < j + 1 implies (#[trigger] parity@[a])@.len() == len by {
                                if a < j {
                                    assert(parity@[a] == before[a]);
                                }
                            }
                        }
                        j = j + 1;
                    }
                    proof {
                        assert forall|a: int, b: int| 0 <= a < p && 0 <= b < len implies #[trigger] parity@[a]@[b]
                            == orig[a]@[b] ^ xsum((c + 1) as nat, |l: int| update_term(m, k as nat, a, ov, cv, b, l)) by {
                            let x = xsum(c as nat, |l: int| update_term(m, k as nat, a, ov, cv, b, l));
                            assert(mid[a]@[b] == orig[a]@[b] ^ x);
                            lemma_add_associative(orig[a]@[b], x, update_term(m, k as nat, a, ov, cv, b, c as int));
                        }
                    }
                },
                None => {
                    proof {
                        assert(cv[c as int] is None);
                        assert forall|a: int, b: int| 0 <= a < p && 0 <= b < len implies #[trigger] parity@[a]@[b]
                            == orig[a]@[b] ^ xsum((c + 1) as nat, |l: int| update_term(m, k as nat, a, ov, cv, b, l)) by {
                            let x = xsum(c as nat, |l: int| update_term(m, k as nat, a, ov, cv, b, l));
                            lemma_add_group(x, 0u8);
                        }
                    }
                },
            }
            c = c + 1;
        }
        Ok(())
    }

    /// Code one data shard, `single` at index `i_data`, into the parity shards:
    /// the first data shard sets them, each later one adds its share. Coding
    /// every data shard in order leaves the parity of the whole set.
    pub fn encode_single_sep(&self, i_data: usize, single: &[u8], parity: &mut [Vec<u8>]) -> (r: Result<(), Error>)
        requires
            self.wf(),
        ensures
            self.family() != CodecFamily::Classic ==> r == Err::<(), Error>(Error::UnsupportedCodecFamily)
                && final(parity)@ == old(parity)@,
            self.family() == CodecFamily::Classic ==> match single_sep_error(
                i_data as int,
                single@,
                shard_views(old(parity)@),
                self.data_count() as int,
                self.parity_count() as int,
            ) {
                Some(e) => r == Err::<(), Error>(e) && final(parity)@ == old(parity)@,
                None => {
                    &&& r is Ok
                    &&& final(parity)@.len() == old(parity)@.len()
                    &&& forall|j: int| 0 <= j < self.parity_count() ==> (#[trigger] final(parity)@[j])@.len() == single@.len()
                    &&& forall|j: int, b: int| 0 <= j < self.parity_count() && 0 <= b < single@.len()
                        ==> #[trigger] final(parity)@[j]@[b] == single_step(
                            self.matrix_view(),
                            self.data_count() as nat,
                            i_data as int,
                            single@,
                            old(parity)@[j]@,
                            j,
                            b,
                        )
                },
            },
    {
        proof {
            self.lemma_fields();
        }
        if self.codec_family != CodecFamily::Classic {
            return Err(Error::UnsupportedCodecFamily);
        }
        let k = self.data_shard_count;
        let p = self.parity_shard_count;
        let ghost views = shard_views(parity@);
        if parity.len() < p {
            return Err(Error::TooFewParityShards);
        }
        if parity.len() > p {
            return Err(Error::TooManyParityShards);
        }
        let len = parity[0].len();
        if len == 0 {
            return Err(Error::EmptyShard);
        }
        let mut uniform_len = true;
        let mut j: usize = 0;
        while j < p
            invariant
                views == shard_views(parity@),
                parity@.len() == p,
                len == views[0].len(),
                j <= p,
                uniform_len <==> forall|a: int| 0 <= a < j ==> #[trigger] views[a].len() == len,
            decreases p - j,
        {
            if parity[j].len() != len {
                assert(views[j as int].len() != views[0].len());
                uniform_len = false;
            }
            j = j + 1;
        }
        if !uniform_len {
            return Err(Error::IncorrectShardSize);
        }
        if single.len() != len {
            return Err(Error::IncorrectShardSize);
        }
        if i_data >= k {
            return Err(Error::InvalidIndex);
        }
        proof {
            self.lemma_classic_matrix();
        }
        let ghost orig = parity@;
        assert forall|a: int| 0 <= a < p implies #[trigger] orig[a]@.len() == len by {
            assert(views[a] == orig[a]@);
        }
        let mut j: usize = 0;
        while j < p
            invariant
                self.wf(),
                self.family() == CodecFamily::Classic,
                k == self.data_count(),
                p == self.parity_count(),
                k + p <= 256,
                is_matrix(self.matrix_view(), (k + p) as int, k as int),
                self.matrix.wf(),
                self.matrix.rows() == k + p,
                self.matrix.cols() == k,
                self.matrix_view() == self.matrix@,
                i_data < k,
                single@.len() == len,
                parity@.len() == p,
                orig.len() == p,
                forall|a: int| 0 <= a < p ==> #[trigger] orig[a]@.len() == len,
                j <= p,
                forall|a: int| j <= a < p ==> #[trigger] parity@[a] == orig[a],
                forall|a: int| 0 <= a < j ==> (#[trigger] parity@[a])@.len() == len,
                forall|a: int, b: int| 0 <= a < j && 0 <= b < len ==> #[trigger] parity@[a]@[b]
                    == single_step(self.matrix_view(), k as nat, i_data as int, single@, orig[a]@, a, b),
            decreases p - j,
        {
            let coef = self.matrix.get(k + j, i_data);
            let mut out = parity[j].clone();
            assert(out@ == orig[j as int]@);
            if i_data == 0 {
                crate::galois_8::mul_slice(coef, single, out.as_mut_slice());
            } else {
                crate::galois_8::mul_slice_xor(coef, single, out.as_mut_slice());
            }
            let ghost before = parity@;
            parity[j] = out;
            proof {
                assert forall|a: int, b: int| 0 <= a < j + 1 && 0 <= b < len implies #[trigger] parity@[a]@[b]
                    == single_step(self.matrix_view(), k as nat, i_data as int, single@, orig[a]@, a, b) by {
                    if a < j {
                        assert(parity@[a] == before[a]);
                    }
                }
                assert forall|a: int| j + 1 <= a < p implies #[trigger] parity@[a] == orig[a] by {
                    assert(parity@[a] == before[a]);
                }
                assert forall|a: int| 0 <= a < j + 1 implies (#[trigger] parity@[a])@.len() == len by {
                    if a < j {
                        assert(parity@[a] == before[a]);
                    }
                }
            }
            j = j + 1;
        }
        Ok(())
    }
}

/// What `encode_sep` does with the data shards `data` and the parity shards
/// `old`, leaving `fin` and returning `r`: a non-classic codec and a bad
/// shard set are refused with the parity unchanged; otherwise each parity
/// shard becomes its encoding row applied to the data shards.
pub open spec fn encode_sep_outcome(rs: ReedSolomon, data: Seq<Vec<u8>>, old: Seq<Vec<u8>>, fin: Seq<Vec<u8>>, r: Result<(), Error>) -> bool {
    if rs.family() != CodecFamily::Classic {
        r == Err::<(), Error>(Error::UnsupportedCodecFamily) && fin == old
    } else {
        match sep_error(shard_views(data), shard_views(old), rs.data_count() as int, rs.parity_count() as int) {
            Some(e) => r == Err::<(), Error>(e) && fin == old,
            None => {
                &&& r is Ok
                &&& fin.len() == old.len()
                &&& forall|j: int| 0 <= j < rs.parity_count() ==> (#[trigger] fin[j])@.len() == data[0]@.len()
                &&& forall|j: int, b: int| 0 <= j < rs.parity_count() && 0 <= b < data[0]@.len()
                    ==> #[trigger] fin[j]@[b] == code_byte(
                        rs.matrix_view()[rs.data_count() + j],
                        shard_views(data),
                        rs.data_count() as nat,
                        b,
                    )
            },
        }
    }
}

/// What `update` reports, or `None`: the counts of old data shards, of
/// changes and of parity shards, the old data lengths, then a parity shard or
/// a new data shard whose length is not that of the old data.
pub open spec fn update_error(old: Seq<Seq<u8>>, changes: Seq<Option<Seq<u8>>>, parity: Seq<Seq<u8>>, k: int, p: int) -> Option<Error> {
    if old.len() < k || changes.len() < k {
        Some(Error::TooFewDataShards)
    } else if old.len() > k || changes.len() > k {
        Some(Error::TooManyDataShards)
    } else if parity.len() < p {
        Some(Error::TooFewParityShards)
    } else if parity.len() > p {
        Some(Error::TooManyParityShards)
    } else if lengths_check(old) is Some {
        lengths_check(old)
    } else if exists|j: int| 0 <= j < p && #[trigger] parity[j].len() != old[0].len() {
        Some(Error::IncorrectShardSize)
    } else if exists|c: int| 0 <= c < k && #[trigger] changes[c] is Some && content(changes[c]).len() != old[0].len() {
        Some(Error::IncorrectShardSize)
    } else {
        None
    }
}

/// The share of data shard `c` in the change of byte `b` of parity shard
/// `j`: its encoding entry times the difference of the old and new bytes when
/// it changed, zero when it did not.
pub open spec fn update_term(m: Seq<Seq<u8>>, k: nat, j: int, old: Seq<Seq<u8>>, changes: Seq<Option<Seq<u8>>>, b: int, c: int) -> u8 {
    match changes[c] {
        Some(n) => gf_mul(m[k + j][c], old[c][b] ^ n[b]),
        None => 0u8,
    }
}

/// The data shards once the changes are made.
pub open spec fn changed_data(old: Seq<Seq<u8>>, changes: Seq<Option<Seq<u8>>>) -> Seq<Seq<u8>> {
    Seq::new(old.len(), |c: int| match changes[c] {
        Some(n) => n,
        None => old[c],
    })
}

/// Updating parity keeps an encoding: when the parity shards are the code of
/// the old data shards, the updated parity shards are the code of the data
/// shards once changed.
pub proof fn lemma_update_keeps_encoding(
    m: Seq<Seq<u8>>,
    k: nat,
    p: nat,
    old: Seq<Seq<u8>>,
    changes: Seq<Option<Seq<u8>>>,
    before: Seq<Seq<u8>>,
    after: Seq<Seq<u8>>,
    len: nat,
)
    requires
        old.len() == k,
        changes.len() == k,
        forall|c: int| 0 <= c < k ==> #[trigger] old[c].len() == len,
        forall|c: int| 0 <= c < k && #[trigger] changes[c] is Some ==> content(changes[c]).len() == len,
        forall|j: int, b: int| 0 <= j < p && 0 <= b < len ==> #[trigger] before[j][b] == code_byte(m[k + j], old, k, b),
        forall|j: int, b: int| 0 <= j < p && 0 <= b < len ==> #[trigger] after[j][b]
            == before[j][b] ^ xsum(k, |c: int| update_term(m, k, j, old, changes, b, c)),
    ensures
        forall|j: int, b: int| 0 <= j < p && 0 <= b < len ==> #[trigger] after[j][b] == code_byte(m[k + j], changed_data(old, changes), k, b),
{
    let new = changed_data(old, changes);
    assert forall|j: int, b: int| 0 <= j < p && 0 <= b < len implies #[trigger] after[j][b] == code_byte(m[k + j], new, k, b) by {
        let f = |c: int| gf_mul(m[k + j][c], old[c][b]);
        let g = |c: int| update_term(m, k, j, old, changes, b, c);
        let h = |c: int| gf_mul(m[k + j][c], new[c][b]);
        assert forall|c: int| 0 <= c < k implies #[trigger] h(c) == f(c) ^ g(c) by {
            match changes[c] {
                Some(n) => {
                    lemma_mul_distributive(m[k + j][c], old[c][b], old[c][b] ^ n[b]);
                    lemma_add_associative(old[c][b], old[c][b], n[b]);
                    lemma_add_group(old[c][b], old[c][b]);
                    lemma_add_group(0u8, n[b]);
                    lemma_add_group(n[b], 0u8);
                },
                None => {
                    lemma_add_group(f(c), 0u8);
                },
            }
        }
        lemma_xsum_add(k, f, g, h);
        assert(before[j][b] == xsum(k, f));
    }
}

/// `acc` plus `coef` times the difference of `old` and `new`, byte by byte.
fn add_change(acc: &Vec<u8>, coef: u8, old: &Vec<u8>, new: &Vec<u8>) -> (out: Vec<u8>)
    requires
        acc@.len() == old@.len(),
        new@.len() == old@.len(),
    ensures
        out@.len() == acc@.len(),
        forall|b: int| 0 <= b < acc@.len() ==> #[trigger] out@[b] == acc@[b] ^ gf_mul(coef, old@[b] ^ new@[b]),
{
    let n = acc.len();
    let mut out: Vec<u8> = Vec::with_capacity(n);
    let mut b: usize = 0;
    while b < n
        invariant
            n == acc@.len(),
            acc@.len() == old@.len(),
            new@.len() == old@.len(),
            b <= n,
            out@.len() == b,
            forall|a: int| 0 <= a < b ==> #[trigger] out@[a] == acc@[a] ^ gf_mul(coef, old@[a] ^ new@[a]),
        decreases n - b,
    {
        out.push(acc[b] ^ crate::galois_8::mul(coef, old[b] ^ new[b]));
        b = b + 1;
    }
    out
}

impl ReedSolomon {
    /// Encode with the data shards and the parity shards apart: each parity
    /// shard becomes its encoding row applied to the data shards.
    pub fn encode_sep(&self, data: &[Vec<u8>], parity: &mut [Vec<u8>]) -> (r: Result<(), Error>)
        requires
            self.wf(),
        ensures
            encode_sep_outcome(*self, data@, old(parity)@, final(parity)@, r),
    {
        proof {
            self.lemma_fields();
        }
        if self.codec_family != CodecFamily::Classic {
            return Err(Error::UnsupportedCodecFamily);
        }
        let k = self.data_shard_count;
        let p = self.parity_shard_count;
        let ghost dv = shard_views(data@);
        let ghost pv = shard_views(parity@);
        if data.len() < k {
            return Err(Error::TooFewDataShards);
        }
        if data.len() > k {
            return Err(Error::TooManyDataShards);
        }
        if parity.len() < p {
            return Err(Error::TooFewParityShards);
        }
        if parity.len() > p {
            return Err(Error::TooManyParityShards);
        }
        let len = data[0].len();
        if len == 0 {
            return Err(Error::EmptyShard);
        }
        let mut same = true;
        let mut c: usize = 0;
        while c < k
            invariant
                dv == shard_views(data@),
                data@.len() == k,
                len == dv[0].len(),
                c <= k,
                same <==> forall|a: int| 0 <= a < c ==> #[trigger] dv[a].len() == len,
            decreases k - c,
        {
            if data[c].len() != len {
                assert(dv[c as int].len() != dv[0].len());
                same = false;
            }
            c = c + 1;
        }
        if !same {
            return Err(Error::IncorrectShardSize);
        }
        let plen = parity[0].len();
        if plen == 0 {
            return Err(Error::EmptyShard);
        }
        let mut j: usize = 0;
        while j < p
            invariant
                pv == shard_views(parity@),
                parity@.len() == p,
                plen == pv[0].len(),
                j <= p,
                same <==> forall|a: int| 0 <= a < j ==> #[trigger] pv[a].len() == plen,
            decreases p - j,
        {
            if parity[j].len() != plen {
                assert(pv[j as int].len() != pv[0].len());
                same = false;
            }
            j = j + 1;
        }
        if !same {
            return Err(Error::IncorrectShardSize);
        }
        if plen != len {
            return Err(Error::IncorrectShardSize);
        }
        proof {
            self.lemma_classic_matrix();
            assert forall|a: int| 0 <= a < k implies #[trigger] data@[a]@.len() == len by {
                assert(dv[a] == data@[a]@);
            }
        }
        let ghost orig = parity@;
        let mut j: usize = 0;
        while j < p
            invariant
                self.wf(),
                self.family() == CodecFamily::Classic,
                k == self.data_count(),
                p == self.parity_count(),
                k + p <= 256,
                k > 0,
                is_matrix(self.matrix_view(), (k + p) as int, k as int),
                self.matrix.wf(),
                self.matrix.rows() == k + p,
                self.matrix.cols() == k,
                self.matrix_view() == self.matrix@,
                data@.len() == k,
                forall|a: int| 0 <= a < k ==> #[trigger] data@[a]@.len() == len,
                parity@.len() == p,
                j <= p,
                forall|a: int| 0 <= a < j ==> (#[trigger] parity@[a])@.len() == len,
                forall|a: int, b: int| 0 <= a < j && 0 <= b < len ==> #[trigger] parity@[a]@[b]
                    == code_byte(self.matrix_view()[k + a], shard_views(data@), k as nat, b),
            decreases p - j,
        {
            let out = code_row(self.matrix.get_row(k + j), data, k, len);
            let ghost before = parity@;
            parity[j] = out;
            proof {
                assert forall|a: int, b: int| 0 <= a < j + 1 && 0 <= b < len implies #[trigger] parity@[a]@[b]
                    == code_byte(self.matrix_view()[k + a], shard_views(data@), k as nat, b) by {
                    if a < j {
                        assert(parity@[a] == before[a]);
                    }
                }
                assert forall|a: int| 0 <= a < j + 1 implies (#[trigger] parity@[a])@.len() == len by {
                    if a < j {
                        assert(parity@[a] == before[a]);
                    }
                }
            }
            j = j + 1;
        }
        Ok(())
    }

    /// Code data shard `i_data` of a whole shard set into its parity shards,
    /// as `encode_single_sep` does; the data shards stay.
    pub fn encode_single(&self, i_data: usize, shards: &mut [Vec<u8>]) -> (r: Result<(), Error>)
        requires
            self.wf(),
        ensures
            self.family() != CodecFamily::Classic ==> r == Err::<(), Error>(Error::UnsupportedCodecFamily)
                && final(shards)@ == old(shards)@,
            self.family() == CodecFamily::Classic && i_data >= self.data_count() ==> r == Err::<(), Error>(Error::InvalidIndex)
                && final(shards)@ == old(shards)@,
            self.family() == CodecFamily::Classic && i_data < self.data_count() ==> match shards_error(
                shard_views(old(shards)@),
                (self.data_count() + self.parity_count()) as int,
            ) {
                Some(e) => r == Err::<(), Error>(e) && final(shards)@ == old(shards)@,
                None => {
                    &&& r is Ok
                    &&& final(shards)@.len() == old(shards)@.len()
                    &&& forall|i: int| 0 <= i < self.data_count() ==> #[trigger] final(shards)@[i] == old(shards)@[i]
                    &&& forall|j: int| 0 <= j < self.parity_count() ==> (#[trigger] final(shards)@[self.data_count() + j])@.len()
                        == old(shards)@[0]@.len()
                    &&& forall|j: int, b: int| 0 <= j < self.parity_count() && 0 <= b < old(shards)@[0]@.len()
                        ==> #[trigger] final(shards)@[self.data_count() + j]@[b] == single_step(
                            self.matrix_view(),
                            self.data_count() as nat,
                            i_data as int,
                            old(shards)@[i_data as int]@,
                            old(shards)@[self.data_count() + j]@,
                            j,
                            b,
                        )
                },
            },
    {
        proof {
            self.lemma_fields();
        }
        if self.codec_family != CodecFamily::Classic {
            return Err(Error::UnsupportedCodecFamily);
        }
        let k = self.data_shard_count;
        let p = self.parity_shard_count;
        if i_data >= k {
            return Err(Error::InvalidIndex);
        }
        match self.check_shards(shards) {
            Ok(()) => {},
            Err(e) => return Err(e),
        }
        let ghost orig = shards@;
        let len = shards[0].len();
        proof {
            self.lemma_classic_matrix();
            assert forall|i: int| 0 <= i < k + p implies #[trigger] orig[i]@.len() == len by {
                if orig[i]@.len() != len {
                    assert(shard_views(orig)[i].len() != shard_views(orig)[0].len());
                }
            }
        }
        let single = shards[i_data].clone();
        let mut parity: Vec<Vec<u8>> = Vec::new();
        let mut j: usize = 0;
        while j < p
            invariant
                shards@ == orig,
                orig.len() == k + p,
                j <= p,
                parity@.len() == j,
                forall|a: int| 0 <= a < j ==> #[trigger] parity@[a]@ == orig[k + a]@,
            decreases p - j,
        {
            parity.push(shards[k + j].clone());
            j = j + 1;
        }
        proof {
            assert forall|a: int| 0 <= a < p implies #[trigger] shard_views(parity@)[a].len() == len by {
                assert(parity@[a]@ == orig[k + a]@);
            }
            assert(shard_views(parity@)[0].len() == len);
            assert(single@ == orig[i_data as int]@);
        }
        let r = self.encode_single_sep(i_data, single.as_slice(), parity.as_mut_slice());
        let mut j: usize = 0;
        while j < p
            invariant
                parity@.len() == p,
                shards@.len() == k + p,
                k + p <= 256,
                j <= p,
                forall|a: int| 0 <= a < k ==> #[trigger] shards@[a] == orig[a],
                forall|a: int| 0 <= a < j ==> #[trigger] shards@[k + a]@ == parity@[a]@,
                forall|a: int| j <= a < p ==> #[trigger] shards@[k + a] == orig[k + a],
            decreases p - j,
        {
            let ghost before = shards@;
            shards[k + j] = parity[j].clone();
            proof {
                assert forall|a: int| 0 <= a < k implies #[trigger] shards@[a] == orig[a] by {
                    assert(shards@[a] == before[a]);
                }
                assert forall|a: int| 0 <= a < j + 1 implies #[trigger] shards@[k + a]@ == parity@[a]@ by {
                    if a < j {
                        assert(shards@[k + a] == before[k + a]);
                    }
                }
                assert forall|a: int| j + 1 <= a < p implies #[trigger] shards@[k + a] == orig[k + a] by {
                    assert(shards@[k + a] == before[k + a]);
                }
            }
            j = j + 1;
        }
        r
    }
}

/// Coding data shards one at a time builds their parity: the first call sets
/// the code of data shard 0, and a call with data shard `i` after the code of
/// the first `i` leaves the code of the first `i + 1`. After the last data
/// shard the parity shards are the code of the whole set.
pub proof fn lemma_encode_single_sep_progress(
    rs: ReedSolomon,
    data: Seq<Seq<u8>>,
    i: nat,
    old: Seq<Seq<u8>>,
    fin: Seq<Seq<u8>>,
)
    requires
        rs.wf(),
        i < data.len(),
        old.len() == rs.parity_count(),
        fin.len() == rs.parity_count(),
        forall|j: int| 0 <= j < rs.parity_count() ==> (#[trigger] fin[j]).len() == data[i as int].len(),
        forall|j: int, b: int| 0 <= j < rs.parity_count() && 0 <= b < data[i as int].len() ==> #[trigger] fin[j][b]
            == single_step(rs.matrix_view(), rs.data_count() as nat, i as int, data[i as int], old[j], j, b),
        i > 0 ==> encoded_upto(rs.matrix_view(), data, old, rs.data_count() as nat, rs.parity_count() as nat, i),
        i > 0 ==> forall|j: int| 0 <= j < rs.parity_count() ==> (#[trigger] old[j]).len() == data[i as int].len(),
    ensures
        encoded_upto(rs.matrix_view(), data, fin, rs.data_count() as nat, rs.parity_count() as nat, i + 1),
        i + 1 == rs.data_count() ==> forall|j: int, b: int| 0 <= j < rs.parity_count() && 0 <= b < fin[j].len()
            ==> #[trigger] fin[j][b] == code_byte(rs.matrix_view()[rs.data_count() + j], data, rs.data_count() as nat, b),
{
    let k = rs.data_count() as nat;
    let p = rs.parity_count() as nat;
    let m = rs.matrix_view();
    assert forall|j: int, b: int| 0 <= j < p && 0 <= b < fin[j].len() implies #[trigger] fin[j][b]
        == xsum(i + 1, |c: int| gf_mul(m[k + j][c], data[c][b])) by {
        let f = |c: int| gf_mul(m[k + j][c], data[c][b]);
        if i == 0 {
            assert(xsum(0, f) == 0);
            lemma_add_group(0u8, f(0));
            lemma_add_group(f(0), 0u8);
        } else {
            assert(old[j][b] == xsum(i, f));
        }
    }
}

} // verus!
