//! Shard containers: moving shard sets into and out of [`ShardSlot`]s, and
//! reconstruction into any [`ReconstructShard`] container, with its law.
use vstd::prelude::*;

use crate::{ReconstructShard, ShardSlot};
use crate::codec::CodecFamily;
use crate::codec::classic::{is_encoded, is_mds_code, uniform};
use crate::codec::reconstruct::{
    common_len, content, erasure_of, lemma_first_present_nonsingular, lemma_present_prefix, lemma_reconstruct_recovers, lengths_error,
    opt_views, present_count, present_prefix, recovered, reconstruct_error, reconstruct_outcome, rows_at, scan_shards,
};
use crate::codec::reed_solomon::ReedSolomon;
use crate::errors::Error;
use crate::matrix::singular;

verus! {

/// Wraps a copy of each shard in a present slot.
pub fn shards_to_slots(shards: &[Vec<u8>]) -> (r: Vec<ShardSlot<Vec<u8>>>)
    ensures
        r@.len() == shards@.len(),
        forall|i: int|
            0 <= i < r@.len() ==> (#[trigger] r@[i]).present() && r@[i].inner()@ == shards@[i]@,
{
    let mut slots: Vec<ShardSlot<Vec<u8>>> = Vec::new();
    let mut i: usize = 0;
    while i < shards.len()
        invariant
            i <= shards@.len(),
            slots@.len() == i,
            forall|j: int|
                0 <= j < i ==> (#[trigger] slots@[j]).present() && slots@[j].inner()@
                    == shards@[j]@,
        decreases shards@.len() - i,
    {
        let copy = shards[i].clone();
        slots.push(ShardSlot::new_present(copy));
        i = i + 1;
    }
    slots
}

/// Marks the slots at the given indices missing, keeping their buffers.
pub fn mark_missing_slots<T>(slots: &mut [ShardSlot<T>], missing: &[usize])
    requires
        forall|k: int| 0 <= k < missing@.len() ==> #[trigger] missing@[k] < old(slots)@.len(),
    ensures
        final(slots)@.len() == old(slots)@.len(),
        forall|i: int|
            0 <= i < old(slots)@.len() ==> (#[trigger] final(slots)@[i]).inner() == old(
                slots,
            )@[i].inner() && final(slots)@[i].present() == (old(slots)@[i].present()
                && !missing@.contains(i as usize)),
{
    let mut k: usize = 0;
    while k < missing.len()
        invariant
            k <= missing@.len(),
            slots@.len() == old(slots)@.len(),
            forall|q: int| 0 <= q < missing@.len() ==> #[trigger] missing@[q] < slots@.len(),
            forall|i: int|
                0 <= i < slots@.len() ==> (#[trigger] slots@[i]).inner() == old(slots)@[i].inner()
                    && slots@[i].present() == (old(slots)@[i].present()
                    && !missing@.subrange(0, k as int).contains(i as usize)),
        decreases missing@.len() - k,
    {
        let idx = missing[k];
        let ghost before = slots@;
        slots[idx].mark_missing();
        proof {
            let prefix = missing@.subrange(0, k as int);
            let next = missing@.subrange(0, k + 1);
            assert(next =~= prefix.push(idx));
            assert forall|i: int| 0 <= i < slots@.len() implies (#[trigger] slots@[i]).inner()
                == old(slots)@[i].inner() && slots@[i].present() == (old(slots)@[i].present()
                && !next.contains(i as usize)) by {
                if i == idx as int {
                    assert(next[k as int] == idx);
                } else {
                    assert(slots@[i] == before[i]);
                    if next.contains(i as usize) {
                        let w = choose|w: int| 0 <= w < next.len() && next[w] == i as usize;
                        assert(w != k as int);
                        assert(prefix[w] == i as usize);
                    }
                    if prefix.contains(i as usize) {
                        let w = choose|w: int| 0 <= w < prefix.len() && prefix[w] == i as usize;
                        assert(next[w] == i as usize);
                    }
                }
            }
        }
        k = k + 1;
    }
    assert(missing@.subrange(0, missing@.len() as int) =~= missing@);
}

/// The shards that containers hold: `None` for a missing one.
pub open spec fn held<T: ReconstructShard>(slots: Seq<T>) -> Seq<Option<Seq<u8>>> {
    slots.map_values(|s: T| s.shard())
}

/// Container `i` is one that reconstruction fills: a missing data shard, or a
/// missing parity shard when not only data is recovered.
pub open spec fn to_fill<T: ReconstructShard>(slots: Seq<T>, i: int, k: nat, data_only: bool) -> bool {
    slots[i].shard() is None && (i < k || !data_only)
}

/// The outcome of reconstructing containers from `old` to `fin`: the checks
/// of `reconstruct` on the shards they hold come first, then every container
/// to fill must take a shard of the shard length; past them each one to fill
/// holds its recovered shard, unless the decode matrix is singular, which
/// changes nothing. The other containers hold what they held.
pub open spec fn reconstruct_slots_outcome<T: ReconstructShard>(
    m: Seq<Seq<u8>>,
    old: Seq<T>,
    fin: Seq<T>,
    k: nat,
    total: nat,
    data_only: bool,
    r: Result<(), Error>,
) -> bool {
    let v = held(old);
    match reconstruct_error(v, total as int, k as int) {
        Some(e) => r == Err::<(), Error>(e) && held(fin) == v,
        None => if present_count(v, total) == total {
            r is Ok && held(fin) == v
        } else if exists|i: int| 0 <= i < total && to_fill(old, i, k, data_only) && !#[trigger] old[i].fits(common_len(v)) {
            r == Err::<(), Error>(Error::IncorrectShardSize) && held(fin) == v
        } else {
            ||| (r is Ok && fin.len() == total && recovered(m, v, held(fin), k, total, data_only))
            ||| (r == Err::<(), Error>(Error::InvalidCustomMatrix)
                && singular(rows_at(m, present_prefix(v, total).take(k as int)), k)
                && held(fin) == v)
        },
    }
}

/// A copy of the bytes of a slice.
fn copy_bytes(src: &[u8]) -> (r: Vec<u8>)
    ensures
        r@ == src@,
{
    let mut out: Vec<u8> = Vec::with_capacity(src.len());
    let mut i: usize = 0;
    while i < src.len()
        invariant
            i <= src@.len(),
            out@ == src@.subrange(0, i as int),
        decreases src@.len() - i,
    {
        out.push(src[i]);
        i = i + 1;
    }
    out
}

/// Write `src` over `dst`, of the same length.
fn copy_into(dst: &mut [u8], src: &[u8])
    requires
        old(dst)@.len() == src@.len(),
    ensures
        final(dst)@ == src@,
{
    let n = src.len();
    let mut i: usize = 0;
    while i < n
        invariant
            n == src@.len(),
            dst@.len() == n,
            i <= n,
            forall|j: int| 0 <= j < i ==> #[trigger] dst@[j] == src@[j],
        decreases n - i,
    {
        dst[i] = src[i];
        i = i + 1;
    }
    assert(dst@ =~= src@);
}

/// Copies of the shards that the containers hold.
fn held_shards<T: ReconstructShard>(slots: &mut [T]) -> (r: Vec<Option<Vec<u8>>>)
    ensures
        final(slots)@.len() == old(slots)@.len(),
        held(final(slots)@) == held(old(slots)@),
        forall|i: int, l: nat| 0 <= i < old(slots)@.len() && old(slots)@[i].shard() is None ==> #[trigger] final(slots)@[i].fits(l)
            == old(slots)@[i].fits(l),
        opt_views(r@) == held(old(slots)@),
{
    let ghost start = slots@;
    let mut out: Vec<Option<Vec<u8>>> = Vec::new();
    let mut i: usize = 0;
    while i < slots.len()
        invariant
            slots@.len() == start.len(),
            i <= slots@.len(),
            out@.len() == i,
            forall|j: int| 0 <= j < slots@.len() ==> #[trigger] held(slots@)[j] == held(start)[j],
            forall|j: int, l: nat| 0 <= j < slots@.len() && start[j].shard() is None ==> #[trigger] slots@[j].fits(l) == start[j].fits(l),
            forall|j: int| 0 <= j < i ==> #[trigger] opt_views(out@)[j] == held(start)[j],
        decreases slots@.len() - i,
    {
        let ghost prev = out@;
        let ghost before = slots@;
        match slots[i].get() {
            Some(bytes) => {
                let copy = copy_bytes(bytes);
                assert(copy@ == before[i as int].shard()->0);
                out.push(Some(copy));
            },
            None => {
                out.push(None);
            },
        }
        assert(slots@[i as int].shard() == before[i as int].shard());
        proof {
            assert forall|j: int| 0 <= j < slots@.len() && j != i implies #[trigger] slots@[j] == before[j] by {}
            assert forall|j: int| 0 <= j < slots@.len() implies #[trigger] held(slots@)[j] == held(start)[j] by {
                assert(held(slots@)[j] == slots@[j].shard());
                assert(held(before)[j] == before[j].shard());
            }
            assert(held(before)[i as int] == before[i as int].shard());
            assert(opt_views(out@)[i as int] == before[i as int].shard());
            assert forall|j: int| 0 <= j < i + 1 implies #[trigger] opt_views(out@)[j] == held(start)[j] by {
                if j < i {
                    assert(out@[j] == prev[j]);
                    assert(opt_views(prev)[j] == held(start)[j]);
                }
            }
        }
        i = i + 1;
    }
    assert(held(slots@) =~= held(start));
    assert(opt_views(out@) =~= held(start));
    out
}

/// Fill a missing container that takes `src` with it.
fn fill_shard<T: ReconstructShard>(shard: &mut T, src: &[u8])
    requires
        old(shard).shard() is None,
        old(shard).fits(src@.len()),
    ensures
        final(shard).shard() == Some(src@),
{
    match shard.get_or_initialize(src.len()) {
        Ok(s) => {
            copy_into(s, src);
        },
        Err(Ok(s)) => {
            copy_into(s, src);
        },
        Err(Err(_)) => {},
    }
}

impl ReedSolomon {
    /// Reconstruction into containers: the shards they hold are
    /// reconstructed as `reconstruct` (or `reconstruct_data`) would, after a
    /// check that every container to fill takes a shard of the shard length,
    /// and each one to fill gets its recovered shard.
    fn reconstruct_slots_internal<T: ReconstructShard>(&self, slots: &mut [T], data_only: bool) -> (r: Result<(), Error>)
        requires
            self.wf(),
        ensures
            final(slots)@.len() == old(slots)@.len(),
            self.family() != CodecFamily::Classic ==> r == Err::<(), Error>(Error::UnsupportedCodecFamily)
                && final(slots)@ == old(slots)@,
            self.family() == CodecFamily::Classic ==> reconstruct_slots_outcome(
                self.matrix_view(),
                old(slots)@,
                final(slots)@,
                self.data_count() as nat,
                (self.data_count() + self.parity_count()) as nat,
                data_only,
                r,
            ),
    {
        proof {
            self.lemma_fields();
        }
        if self.codec_family != CodecFamily::Classic {
            return Err(Error::UnsupportedCodecFamily);
        }
        let k = self.data_shard_count;
        let total = self.total_shard_count;
        let ghost start = slots@;
        let ghost v = held(start);
        let mut shards = held_shards(slots);
        let ghost start2 = slots@;
        if shards.len() < total {
            return Err(Error::TooFewShards);
        }
        if shards.len() > total {
            return Err(Error::TooManyShards);
        }
        let (number_present, shard_len) = match scan_shards(&shards) {
            Ok(x) => x,
            Err(e) => return Err(e),
        };
        if number_present == total {
            return Ok(());
        }
        if number_present < k {
            return Err(Error::TooFewShardsPresent);
        }
        assert(reconstruct_error(v, total as int, k as int) is None);
        assert(shard_len == common_len(v));
        let mut sized = true;
        let mut i: usize = 0;
        while i < total
            invariant
                slots@ == start2,
                held(start2) == v,
                v == held(start),
                start.len() == total,
                start2.len() == total,
                forall|j: int, l: nat| 0 <= j < total && start[j].shard() is None ==> #[trigger] start2[j].fits(l) == start[j].fits(l),
                i <= total,
                sized <==> forall|j: int| 0 <= j < i && to_fill(start, j, k as nat, data_only) ==> #[trigger] start[j].fits(shard_len as nat),
            decreases total - i,
        {
            proof {
                assert(held(start2)[i as int] == start2[i as int].shard());
                assert(held(start)[i as int] == start[i as int].shard());
            }
            if slots[i].is_empty() && (i < k || !data_only) {
                if !slots[i].fits_len(shard_len) {
                    assert(to_fill(start, i as int, k as nat, data_only));
                    sized = false;
                }
            }
            i = i + 1;
        }
        if !sized {
            return Err(Error::IncorrectShardSize);
        }
        let r = self.reconstruct_internal(&mut shards, data_only);
        if r.is_err() {
            return r;
        }
        let ghost after = opt_views(shards@);
        proof {
            assert(reconstruct_outcome(self.matrix_view(), v, after, k as nat, total as nat, data_only, r));
            assert forall|j: int| 0 <= j < total && to_fill(start, j, k as nat, data_only) implies #[trigger] after[j] is Some
                && content(after[j]).len() == shard_len by {
                assert(held(start)[j] == start[j].shard());
            }
        }
        let mut i: usize = 0;
        while i < total
            invariant
                slots@.len() == total,
                start.len() == total,
                start2.len() == total,
                shards@.len() == total,
                after == opt_views(shards@),
                v == held(start),
                held(start2) == v,
                i <= total,
                forall|j: int, l: nat| 0 <= j < total && start[j].shard() is None ==> #[trigger] start2[j].fits(l) == start[j].fits(l),
                forall|j: int| 0 <= j < total && to_fill(start, j, k as nat, data_only) ==> #[trigger] after[j] is Some
                    && content(after[j]).len() == shard_len,
                forall|j: int| 0 <= j < total && to_fill(start, j, k as nat, data_only) ==> #[trigger] start[j].fits(shard_len as nat),
                forall|j: int| i <= j < total ==> #[trigger] slots@[j] == start2[j],
                forall|j: int| 0 <= j < i && !to_fill(start, j, k as nat, data_only) ==> #[trigger] slots@[j] == start2[j],
                forall|j: int| 0 <= j < i && to_fill(start, j, k as nat, data_only) ==> (#[trigger] slots@[j]).shard() == after[j],
            decreases total - i,
        {
            let ghost prev = slots@;
            proof {
                assert(held(start2)[i as int] == start2[i as int].shard());
                assert(held(start)[i as int] == start[i as int].shard());
            }
            if slots[i].is_empty() && (i < k || !data_only) {
                assert(to_fill(start, i as int, k as nat, data_only));
                match &shards[i] {
                    Some(bytes) => {
                        assert(after[i as int] == Some(bytes@));
                        fill_shard(&mut slots[i], bytes.as_slice());
                    },
                    None => {
                        assert(after[i as int] is Some);
                    },
                }
            }
            proof {
                assert forall|j: int| 0 <= j < total && j != i implies #[trigger] slots@[j] == prev[j] by {}
            }
            i = i + 1;
        }
        proof {
            let fin = slots@;
            assert(held(fin) =~= after) by {
                assert forall|j: int| 0 <= j < total implies #[trigger] held(fin)[j] == after[j] by {
                    assert(held(start)[j] == start[j].shard());
                    assert(held(start2)[j] == start2[j].shard());
                    if !to_fill(start, j, k as nat, data_only) {
                        assert(fin[j] == start2[j]);
                        if v[j] is Some {
                            assert(after[j] == v[j]);
                        }
                    }
                }
            }
        }
        r
    }

    /// Reconstruct the shards of containers: each missing one is given its
    /// recovered shard, in its own buffer where it has one.
    pub fn reconstruct_slots<T: ReconstructShard>(&self, slots: &mut [T]) -> (r: Result<(), Error>)
        requires
            self.wf(),
        ensures
            final(slots)@.len() == old(slots)@.len(),
            self.family() != CodecFamily::Classic ==> r == Err::<(), Error>(Error::UnsupportedCodecFamily)
                && final(slots)@ == old(slots)@,
            self.family() == CodecFamily::Classic ==> reconstruct_slots_outcome(
                self.matrix_view(),
                old(slots)@,
                final(slots)@,
                self.data_count() as nat,
                (self.data_count() + self.parity_count()) as nat,
                false,
                r,
            ),
    {
        self.reconstruct_slots_internal(slots, false)
    }

    /// Reconstruct the data shards of containers only; missing parity shards
    /// stay missing.
    pub fn reconstruct_data_slots<T: ReconstructShard>(&self, slots: &mut [T]) -> (r: Result<(), Error>)
        requires
            self.wf(),
        ensures
            final(slots)@.len() == old(slots)@.len(),
            self.family() != CodecFamily::Classic ==> r == Err::<(), Error>(Error::UnsupportedCodecFamily)
                && final(slots)@ == old(slots)@,
            self.family() == CodecFamily::Classic ==> reconstruct_slots_outcome(
                self.matrix_view(),
                old(slots)@,
                final(slots)@,
                self.data_count() as nat,
                (self.data_count() + self.parity_count()) as nat,
                true,
                r,
            ),
    {
        self.reconstruct_slots_internal(slots, true)
    }
}

/// Reconstruction into slots gives back what was encoded: when the slots hold
/// an encoded set of shards with some missing, a successful call leaves every
/// slot holding its shard (but the missing parity slots when only data is
/// recovered, which stay missing); with a code that loses nothing it
/// succeeds whenever `data_shard_count` shards are present and the buffers to
/// fill have the shard length.
pub proof fn lemma_reconstruct_slots_recovers<T: ReconstructShard>(
    rs: ReedSolomon,
    full: Seq<Seq<u8>>,
    old: Seq<T>,
    fin: Seq<T>,
    data_only: bool,
    r: Result<(), Error>,
)
    requires
        rs.wf(),
        rs.family() == CodecFamily::Classic,
        full.len() == rs.data_count() + rs.parity_count(),
        full[0].len() > 0,
        uniform(full, full[0].len()),
        is_encoded(rs.matrix_view(), full, rs.data_count() as nat, (rs.data_count() + rs.parity_count()) as nat),
        erasure_of(held(old), full),
        reconstruct_slots_outcome(
            rs.matrix_view(),
            old,
            fin,
            rs.data_count() as nat,
            (rs.data_count() + rs.parity_count()) as nat,
            data_only,
            r,
        ),
    ensures
        r is Ok ==> forall|i: int| 0 <= i < full.len() ==> #[trigger] held(fin)[i] == if data_only && i >= rs.data_count()
            && old[i].shard() is None {
            None::<Seq<u8>>
        } else {
            Some(full[i])
        },
        is_mds_code(rs.matrix_view(), rs.data_count() as nat, full.len() as nat)
            && present_count(held(old), full.len() as nat) >= rs.data_count()
            && (forall|i: int| 0 <= i < full.len() && to_fill(old, i, rs.data_count() as nat, data_only)
                ==> #[trigger] old[i].fits(full[0].len())) ==> r is Ok,
{
    let k = rs.data_count() as nat;
    let total = full.len() as nat;
    let m = rs.matrix_view();
    let v = held(old);
    let len = full[0].len();
    rs.lemma_classic_matrix();
    assert(lengths_error(v) is None) by {
        assert forall|i: int| 0 <= i < v.len() && #[trigger] v[i] is Some implies content(v[i]).len() == len by {
            assert(v[i] == Some(full[i]));
        }
    }
    if r is Ok {
        lemma_reconstruct_recovers(rs, full, v, held(fin), data_only, r);
    }
    if is_mds_code(m, k, total) && present_count(v, total) >= k
        && (forall|i: int| 0 <= i < total && to_fill(old, i, k, data_only) ==> #[trigger] old[i].fits(len)) {
        assert(reconstruct_error(v, total as int, k as int) is None);
        lemma_present_prefix(v, total);
        if present_count(v, total) < total {
            let w = present_prefix(v, total)[0] as int;
            assert(v[w] is Some);
            let i0 = choose|i: int| 0 <= i < v.len() && #[trigger] v[i] is Some;
            assert(v[i0] == Some(full[i0]));
            assert(common_len(v) == len);
            assert(!(exists|i: int| 0 <= i < total && to_fill(old, i, k, data_only)
                && !#[trigger] old[i].fits(common_len(v))));
            lemma_first_present_nonsingular(rs, v);
        }
    }
}

} // verus!
