//! Transform plans of the Leopard codecs: which butterflies run, on which
//! positions, with which twiddle logarithms read from the skew table. The
//! plans are shared by the GF(2^8) and GF(2^16) codecs, which differ only in
//! the width `L` of a logarithm.
use vstd::prelude::*;

verus! {

/// A radix-4 butterfly at `r` with stride `dist` and its three multipliers.
#[derive(Debug, Clone, Copy)]
pub struct Stage4Block<L> {
    pub r: usize,
    pub dist: usize,
    pub log_m01: L,
    pub log_m23: L,
    pub log_m02: L,
}

/// A radix-2 butterfly at `r` with stride `dist` and its multiplier.
#[derive(Debug, Clone, Copy)]
pub struct Stage2Block<L> {
    pub r: usize,
    pub dist: usize,
    pub log_m: L,
}

/// The butterflies of a forward transform truncated to `mtrunc` outputs.
#[derive(Debug, Clone)]
pub struct FftPlan<L> {
    pub mtrunc: usize,
    pub stage4_blocks: Vec<Stage4Block<L>>,
    pub final_stage: Vec<Stage2Block<L>>,
}

/// The butterflies of an inverse transform of size `m` over `mtrunc` inputs.
#[derive(Debug, Clone)]
pub struct IfftPlan<L> {
    pub mtrunc: usize,
    pub m: usize,
    pub initial_blocks: Vec<Stage4Block<L>>,
    pub later_blocks: Vec<Stage4Block<L>>,
    pub clear_start: usize,
    pub final_stage: Option<Stage2Block<L>>,
}

/// The positions `(r, dist)` for `r = start, start + step, ...` below `limit`.
pub open spec fn strided(start: int, limit: int, dist: int, step: int) -> Seq<(int, int)>
    decreases (if start < limit {
        limit - start
    } else {
        0
    }),
{
    if start < limit && step > 0 {
        seq![(start, dist)] + strided(start + step, limit, dist, step)
    } else {
        seq![]
    }
}

/// Forward transform positions: for the strides `d4/4, d4/16, ...` down to one,
/// each group of `4 * dist` outputs below `mtrunc` gets a radix-4 butterfly.
pub open spec fn fft_positions(mtrunc: int, d4: int) -> Seq<(int, int)>
    decreases d4,
{
    if d4 / 4 <= 0 {
        seq![]
    } else {
        strided(0, mtrunc, d4 / 4, d4) + fft_positions(mtrunc, d4 / 4)
    }
}

/// The smallest group size the forward transform reaches from `d4`.
pub open spec fn fft_last(d4: int) -> int
    decreases d4,
{
    if d4 / 4 <= 0 {
        d4
    } else {
        fft_last(d4 / 4)
    }
}

/// Inverse transform positions from stride `dist` up: each stride whose group
/// `4 * dist` fits in `m` runs over the groups below `mtrunc`.
pub open spec fn ifft_positions(mtrunc: int, m: int, dist: int) -> Seq<(int, int)>
    decreases m - dist,
{
    if dist >= 1 && 4 * dist <= m {
        strided(0, mtrunc, dist, 4 * dist) + ifft_positions(mtrunc, m, 4 * dist)
    } else {
        seq![]
    }
}

/// The stride the inverse transform ends at, starting from `dist`.
pub open spec fn ifft_last(m: int, dist: int) -> int
    decreases m - dist,
{
    if dist >= 1 && 4 * dist <= m {
        ifft_last(m, 4 * dist)
    } else {
        dist
    }
}

/// The radix-4 block at position `p`; its multipliers are read at
/// `r + dist - o`, `r + 2*dist - o` and `r + 3*dist - o`.
pub open spec fn block4<L>(skew: Seq<L>, p: (int, int), o: int) -> Stage4Block<L> {
    Stage4Block {
        r: p.0 as usize,
        dist: p.1 as usize,
        log_m01: skew[p.0 + p.1 - o],
        log_m02: skew[p.0 + 2 * p.1 - o],
        log_m23: skew[p.0 + 3 * p.1 - o],
    }
}

/// The radix-4 blocks at the given positions.
pub open spec fn blocks4<L>(skew: Seq<L>, ps: Seq<(int, int)>, o: int) -> Seq<Stage4Block<L>> {
    ps.map_values(|p: (int, int)| block4(skew, p, o))
}

/// The radix-2 blocks of stride one at the given positions, reading at `r`.
pub open spec fn blocks2<L>(skew: Seq<L>, ps: Seq<(int, int)>) -> Seq<Stage2Block<L>> {
    ps.map_values(|p: (int, int)| Stage2Block { r: p.0 as usize, dist: p.1 as usize, log_m: skew[p.0] })
}

/// Every radix-4 block at these positions reads inside a table of `len` entries.
pub open spec fn reads_inside(ps: Seq<(int, int)>, o: int, len: int) -> bool {
    forall|i: int| 0 <= i < ps.len() ==> 0 <= #[trigger] ps[i].0 + ps[i].1 - o && ps[i].0 + 3 * ps[i].1 - o < len
}

/// Every radix-2 block at these positions reads inside a table of `len` entries.
pub open spec fn reads2_inside(ps: Seq<(int, int)>, len: int) -> bool {
    forall|i: int| 0 <= i < ps.len() ==> 0 <= #[trigger] ps[i].0 < len
}

/// The forward plan: radix-4 blocks at `fft_positions(mtrunc, m)` reading one
/// before their group ends, and, when the transform ends on groups of two, a
/// radix-2 block at every even position below `mtrunc`.
pub open spec fn fft_plan_spec<L>(mtrunc: usize, m: usize, skew: Seq<L>) -> (Seq<Stage4Block<L>>, Seq<Stage2Block<L>>) {
    (
        blocks4(skew, fft_positions(mtrunc as int, m as int), 1),
        if fft_last(m as int) == 2 {
            blocks2(skew, strided(0, mtrunc as int, 1, 2))
        } else {
            seq![]
        },
    )
}

/// What a forward plan needs of its table: every read is inside it, and the
/// group arithmetic fits in a `usize`.
pub open spec fn fft_plan_pre(mtrunc: usize, m: usize, len: int) -> bool {
    &&& mtrunc + m <= usize::MAX
    &&& reads_inside(fft_positions(mtrunc as int, m as int), 1, len)
    &&& fft_last(m as int) == 2 ==> reads2_inside(strided(0, mtrunc as int, 1, 2), len)
}

proof fn lemma_shr2(x: usize)
    ensures
        x >> 2usize == x / 4,
{
    assert(x >> 2usize == x / 4) by (bit_vector);
}

proof fn lemma_strided_unfold(start: int, limit: int, dist: int, step: int)
    requires
        start < limit,
        step > 0,
    ensures
        strided(start, limit, dist, step) == seq![(start, dist)] + strided(start + step, limit, dist, step),
{
}

/// Builds the forward plan; the multipliers are read at `i_end - 1`,
/// `i_end + dist - 1` and `i_end + 2*dist - 1` with `i_end = r + dist`.
pub fn build_fft_plan<L: Copy>(mtrunc: usize, m: usize, skew_lut: &[L]) -> (plan: FftPlan<L>)
    requires
        fft_plan_pre(mtrunc, m, skew_lut@.len() as int),
    ensures
        plan.mtrunc == mtrunc,
        (plan.stage4_blocks@, plan.final_stage@) == fft_plan_spec(mtrunc, m, skew_lut@),
{
    let ghost skew = skew_lut@;
    let ghost whole = fft_positions(mtrunc as int, m as int);
    let ghost mut done: Seq<(int, int)> = seq![];
    let mut stage4_blocks: Vec<Stage4Block<L>> = Vec::new();
    let mut dist4 = m;
    let mut dist = m >> 2;
    proof {
        lemma_shr2(m);
        assert(stage4_blocks@ =~= blocks4(skew, done, 1));
        assert(done + fft_positions(mtrunc as int, m as int) =~= whole);
    }
    while dist != 0
        invariant
            skew == skew_lut@,
            whole == fft_positions(mtrunc as int, m as int),
            fft_plan_pre(mtrunc, m, skew.len() as int),
            dist == dist4 / 4,
            dist4 <= m,
            stage4_blocks@ == blocks4(skew, done, 1),
            done + fft_positions(mtrunc as int, dist4 as int) == whole,
            fft_last(dist4 as int) == fft_last(m as int),
        decreases dist4,
    {
        let ghost stage = strided(0, mtrunc as int, dist as int, dist4 as int);
        let ghost rest = fft_positions(mtrunc as int, dist as int);
        assert(fft_positions(mtrunc as int, dist4 as int) == stage + rest);
        let ghost mut sdone: Seq<(int, int)> = seq![];
        let mut r: usize = 0;
        proof {
            assert(sdone + strided(0, mtrunc as int, dist as int, dist4 as int) =~= stage);
            assert(done + sdone =~= done);
        }
        while r < mtrunc
            invariant
                skew == skew_lut@,
                whole == fft_positions(mtrunc as int, m as int),
                fft_plan_pre(mtrunc, m, skew.len() as int),
                dist == dist4 / 4,
                dist > 0,
                dist4 <= m,
                stage == strided(0, mtrunc as int, dist as int, dist4 as int),
                done + (stage + rest) == whole,
                sdone + strided(r as int, mtrunc as int, dist as int, dist4 as int) == stage,
                stage4_blocks@ == blocks4(skew, done + sdone, 1),
                r <= mtrunc + dist4,
            decreases mtrunc + dist4 - r,
        {
            proof {
                lemma_strided_unfold(r as int, mtrunc as int, dist as int, dist4 as int);
                let idx = (done.len() + sdone.len()) as int;
                assert(whole[idx] == (r as int, dist as int)) by {
                    assert(whole == done + (sdone + (seq![(r as int, dist as int)] + strided(
                        r + dist4,
                        mtrunc as int,
                        dist as int,
                        dist4 as int,
                    ) + rest)));
                }
                assert(0 <= whole[idx].0 + whole[idx].1 - 1 && whole[idx].0 + 3 * whole[idx].1 - 1 < skew.len());
            }
            let i_end = r + dist;
            stage4_blocks.push(
                Stage4Block {
                    r,
                    dist,
                    log_m01: skew_lut[i_end - 1],
                    log_m02: skew_lut[i_end + dist - 1],
                    log_m23: skew_lut[i_end + dist * 2 - 1],
                },
            );
            proof {
                let p = (r as int, dist as int);
                assert(blocks4(skew, (done + sdone).push(p), 1) =~= blocks4(skew, done + sdone, 1).push(block4(skew, p, 1)));
                assert((done + sdone).push(p) =~= done + sdone.push(p));
                assert(sdone.push(p) + strided(r + dist4, mtrunc as int, dist as int, dist4 as int) =~= sdone + (seq![p] + strided(r + dist4, mtrunc as int, dist as int, dist4 as int)));
                sdone = sdone.push(p);
            }
            r = r + dist4;
        }
        proof {
            assert(strided(r as int, mtrunc as int, dist as int, dist4 as int) =~= seq![]);
            assert(sdone =~= stage);
            assert(done + stage + rest =~= done + (stage + rest));
            done = done + stage;
            lemma_shr2(dist);
        }
        dist4 = dist;
        dist = dist >> 2;
    }
    proof {
        assert(fft_positions(mtrunc as int, dist4 as int) =~= seq![]);
        assert(done =~= whole);
    }
    let final_stage = if dist4 == 2 {
        let ghost all2 = strided(0, mtrunc as int, 1, 2);
        let ghost mut done2: Seq<(int, int)> = seq![];
        let mut blocks: Vec<Stage2Block<L>> = Vec::new();
        let mut r: usize = 0;
        proof {
            assert(done2 + all2 =~= all2);
            assert(blocks@ =~= blocks2(skew, done2));
        }
        while r < mtrunc
            invariant
                skew == skew_lut@,
                fft_plan_pre(mtrunc, m, skew.len() as int),
                fft_last(m as int) == 2,
                all2 == strided(0, mtrunc as int, 1, 2),
                done2 + strided(r as int, mtrunc as int, 1, 2) == all2,
                blocks@ == blocks2(skew, done2),
                r <= mtrunc + 2,
            decreases mtrunc + 2 - r,
        {
            proof {
                lemma_strided_unfold(r as int, mtrunc as int, 1, 2);
                assert(all2[done2.len() as int] == (r as int, 1int));
                assert(0 <= all2[done2.len() as int].0 < skew.len());
            }
            blocks.push(Stage2Block { r, dist: 1, log_m: skew_lut[r] });
            proof {
                let p = (r as int, 1int);
                assert(blocks2(skew, done2.push(p)) =~= blocks2(skew, done2).push(Stage2Block { r: r, dist: 1, log_m: skew[r as int] }));
                assert(done2.push(p) + strided(r + 2, mtrunc as int, 1, 2) =~= done2 + (seq![p] + strided(r + 2, mtrunc as int, 1, 2)));
                done2 = done2.push(p);
            }
            r = r + 2;
        }
        proof {
            assert(strided(r as int, mtrunc as int, 1, 2) =~= seq![]);
            assert(done2 =~= all2);
        }
        blocks
    } else {
        Vec::new()
    };
    FftPlan { mtrunc, stage4_blocks, final_stage }
}

/// `x` rounded down to a multiple of four.
pub open spec fn round_down4(x: int) -> int {
    x - x % 4
}

/// The inverse plan: radix-4 blocks of stride one over every group of four
/// below `mtrunc` (when `m >= 4`), then the larger strides of
/// `ifft_positions`, all reading at `r + k*dist - o`; a radix-2 block at the
/// stride the transform ends at when it is below `m`; and `mtrunc` rounded up
/// to a multiple of four as the start of the part to clear.
pub open spec fn ifft_plan_spec<L>(mtrunc: usize, m: usize, skew: Seq<L>, o: int) -> (
    Seq<Stage4Block<L>>,
    Seq<Stage4Block<L>>,
    int,
    Option<Stage2Block<L>>,
) {
    let d = ifft_last(m as int, 1);
    (
        if 4 <= m {
            blocks4(skew, strided(0, mtrunc as int, 1, 4), o)
        } else {
            seq![]
        },
        if 4 <= m {
            blocks4(skew, ifft_positions(mtrunc as int, m as int, 4), o)
        } else {
            seq![]
        },
        round_down4(mtrunc + 3),
        if d < m {
            Some(Stage2Block { r: 0, dist: d as usize, log_m: skew[d - o] })
        } else {
            None
        },
    )
}

/// What an inverse plan needs of its table: every read is inside it, and the
/// group arithmetic fits in a `usize`.
pub open spec fn ifft_plan_pre(mtrunc: usize, m: usize, len: int, o: int) -> bool {
    &&& mtrunc + m + 3 <= usize::MAX
    &&& 4 * m <= usize::MAX
    &&& 0 <= o <= 1
    &&& 4 <= m ==> reads_inside(strided(0, mtrunc as int, 1, 4) + ifft_positions(mtrunc as int, m as int, 4), o, len)
    &&& ifft_last(m as int, 1) < m ==> ifft_last(m as int, 1) - o < len
}

proof fn lemma_round_down4(x: usize)
    ensures
        x & !3usize == x - x % 4,
{
    assert(x & !3usize == x - x % 4) by (bit_vector);
}

pub proof fn lemma_shl2(x: usize)
    requires
        4 * x <= usize::MAX,
    ensures
        x << 2usize == 4 * x,
{
    vstd::arithmetic::power2::lemma2_to64();
    vstd::bits::lemma_usize_shl_is_mul(x, 2);
}

proof fn lemma_ifft_last_ge(m: int, dist: int)
    requires
        dist >= 1,
    ensures
        ifft_last(m, dist) >= dist,
    decreases m - dist,
{
    if 4 * dist <= m {
        lemma_ifft_last_ge(m, 4 * dist);
    }
}

/// Builds the inverse plan; the multipliers are read at `i_end - o`,
/// `i_end + dist - o` and `i_end + 2*dist - o` with `i_end = r + dist`, and the
/// final radix-2 multiplier at `dist - o`.
pub fn build_ifft_plan<L: Copy>(mtrunc: usize, m: usize, skew_lut: &[L], offset: usize) -> (plan: IfftPlan<L>)
    requires
        ifft_plan_pre(mtrunc, m, skew_lut@.len() as int, offset as int),
    ensures
        plan.mtrunc == mtrunc,
        plan.m == m,
        (plan.initial_blocks@, plan.later_blocks@, plan.clear_start as int, plan.final_stage)
            == ifft_plan_spec(mtrunc, m, skew_lut@, offset as int),
{
    let ghost skew = skew_lut@;
    let ghost o = offset as int;
    let ghost first = strided(0, mtrunc as int, 1, 4);
    let ghost whole = first + ifft_positions(mtrunc as int, m as int, 4);
    let mut initial_blocks: Vec<Stage4Block<L>> = Vec::new();
    let mut later_blocks: Vec<Stage4Block<L>> = Vec::new();
    let mut dist: usize = 1;
    let mut dist4: usize = 4;
    if dist4 <= m {
        let full_groups = mtrunc & !3usize;
        proof {
            lemma_round_down4(mtrunc);
        }
        let ghost mut sdone: Seq<(int, int)> = seq![];
        let mut r: usize = 0;
        proof {
            assert(sdone + first =~= first);
            assert(initial_blocks@ =~= blocks4(skew, sdone, o));
        }
        while r < full_groups
            invariant
                skew == skew_lut@,
                o == offset as int,
                ifft_plan_pre(mtrunc, m, skew.len() as int, o),
                4 <= m,
                dist == 1,
                dist4 == 4,
                full_groups == mtrunc - mtrunc % 4,
                r % 4 == 0,
                r <= full_groups,
                first == strided(0, mtrunc as int, 1, 4),
                whole == first + ifft_positions(mtrunc as int, m as int, 4),
                sdone + strided(r as int, mtrunc as int, 1, 4) == first,
                initial_blocks@ == blocks4(skew, sdone, o),
            decreases full_groups - r,
        {
            proof {
                lemma_strided_unfold(r as int, mtrunc as int, 1, 4);
                let idx = sdone.len() as int;
                assert(whole[idx] == (r as int, 1int));
                assert(0 <= whole[idx].0 + whole[idx].1 - o && whole[idx].0 + 3 * whole[idx].1 - o < skew.len());
            }
            let i_end = r + dist;
            initial_blocks.push(
                Stage4Block {
                    r,
                    dist,
                    log_m01: skew_lut[i_end - offset],
                    log_m02: skew_lut[i_end + dist - offset],
                    log_m23: skew_lut[i_end + dist * 2 - offset],
                },
            );
            proof {
                let p = (r as int, 1int);
                assert(blocks4(skew, sdone.push(p), o) =~= blocks4(skew, sdone, o).push(block4(skew, p, o)));
                assert(sdone.push(p) + strided(r + 4, mtrunc as int, 1, 4) =~= sdone + (seq![p] + strided(r + 4, mtrunc as int, 1, 4)));
                sdone = sdone.push(p);
            }
            r = r + dist4;
        }
        if full_groups < mtrunc {
            let r = full_groups;
            proof {
                lemma_strided_unfold(r as int, mtrunc as int, 1, 4);
                assert(strided(r + 4, mtrunc as int, 1, 4) =~= seq![]);
                let idx = sdone.len() as int;
                assert(whole[idx] == (r as int, 1int));
                assert(0 <= whole[idx].0 + whole[idx].1 - o && whole[idx].0 + 3 * whole[idx].1 - o < skew.len());
            }
            let i_end = r + dist;
            initial_blocks.push(
                Stage4Block {
                    r,
                    dist,
                    log_m01: skew_lut[i_end - offset],
                    log_m02: skew_lut[i_end + dist - offset],
                    log_m23: skew_lut[i_end + dist * 2 - offset],
                },
            );
            proof {
                let p = (r as int, 1int);
                assert(blocks4(skew, sdone.push(p), o) =~= blocks4(skew, sdone, o).push(block4(skew, p, o)));
                assert(sdone.push(p) =~= first);
            }
        } else {
            proof {
                assert(strided(r as int, mtrunc as int, 1, 4) =~= seq![]);
                assert(sdone =~= first);
            }
        }
        dist = dist4;
        proof {
            lemma_shl2(dist4);
        }
        dist4 = dist4 << 2usize;
        let ghost mut done: Seq<(int, int)> = seq![];
        proof {
            assert(done + ifft_positions(mtrunc as int, m as int, dist as int) =~= ifft_positions(mtrunc as int, m as int, 4));
            assert(later_blocks@ =~= blocks4(skew, done, o));
        }
        while dist4 <= m
            invariant
                skew == skew_lut@,
                o == offset as int,
                ifft_plan_pre(mtrunc, m, skew.len() as int, o),
                4 <= m,
                dist >= 4,
                dist4 == 4 * dist,
                dist <= m,
                first == strided(0, mtrunc as int, 1, 4),
                whole == first + ifft_positions(mtrunc as int, m as int, 4),
                done + ifft_positions(mtrunc as int, m as int, dist as int) == ifft_positions(mtrunc as int, m as int, 4),
                ifft_last(m as int, dist as int) == ifft_last(m as int, 1),
                later_blocks@ == blocks4(skew, done, o),
                initial_blocks@ == blocks4(skew, first, o),
            decreases m - dist,
        {
            let ghost stage = strided(0, mtrunc as int, dist as int, dist4 as int);
            let ghost rest = ifft_positions(mtrunc as int, m as int, dist4 as int);
            assert(ifft_positions(mtrunc as int, m as int, dist as int) == stage + rest);
            let ghost mut sdone: Seq<(int, int)> = seq![];
            let mut r: usize = 0;
            proof {
                assert(sdone + stage =~= stage);
                assert(done + sdone =~= done);
            }
            while r < mtrunc
                invariant
                    skew == skew_lut@,
                    o == offset as int,
                    ifft_plan_pre(mtrunc, m, skew.len() as int, o),
                    4 <= m,
                    dist >= 4,
                    dist4 == 4 * dist,
                    dist4 <= m,
                    first == strided(0, mtrunc as int, 1, 4),
                    whole == first + ifft_positions(mtrunc as int, m as int, 4),
                    done + (stage + rest) == ifft_positions(mtrunc as int, m as int, 4),
                    stage == strided(0, mtrunc as int, dist as int, dist4 as int),
                    sdone + strided(r as int, mtrunc as int, dist as int, dist4 as int) == stage,
                    later_blocks@ == blocks4(skew, done + sdone, o),
                    r <= mtrunc + dist4,
                decreases mtrunc + dist4 - r,
            {
                proof {
                    lemma_strided_unfold(r as int, mtrunc as int, dist as int, dist4 as int);
                    let idx = (first.len() + done.len() + sdone.len()) as int;
                    assert(whole[idx] == (r as int, dist as int)) by {
                        assert(whole == first + (done + (sdone + (seq![(r as int, dist as int)] + strided(
                            r + dist4,
                            mtrunc as int,
                            dist as int,
                            dist4 as int,
                        ) + rest))));
                    }
                    assert(0 <= whole[idx].0 + whole[idx].1 - o && whole[idx].0 + 3 * whole[idx].1 - o < skew.len());
                }
                let i_end = r + dist;
                later_blocks.push(
                    Stage4Block {
                        r,
                        dist,
                        log_m01: skew_lut[i_end - offset],
                        log_m02: skew_lut[i_end + dist - offset],
                        log_m23: skew_lut[i_end + dist * 2 - offset],
                    },
                );
                proof {
                    let p = (r as int, dist as int);
                    assert(blocks4(skew, (done + sdone).push(p), o) =~= blocks4(skew, done + sdone, o).push(block4(skew, p, o)));
                    assert((done + sdone).push(p) =~= done + sdone.push(p));
                    assert(sdone.push(p) + strided(r + dist4, mtrunc as int, dist as int, dist4 as int) =~= sdone + (seq![p] + strided(r + dist4, mtrunc as int, dist as int, dist4 as int)));
                    sdone = sdone.push(p);
                }
                r = r + dist4;
            }
            proof {
                assert(strided(r as int, mtrunc as int, dist as int, dist4 as int) =~= seq![]);
                assert(sdone =~= stage);
                assert(done + stage + rest =~= done + (stage + rest));
                done = done + stage;
                lemma_shl2(dist4);
            }
            dist = dist4;
            dist4 = dist4 << 2usize;
        }
        proof {
            assert(ifft_positions(mtrunc as int, m as int, dist as int) =~= seq![]);
            assert(done =~= ifft_positions(mtrunc as int, m as int, 4));
        }
    } else {
        proof {
            assert(initial_blocks@ =~= seq![]);
            assert(later_blocks@ =~= seq![]);
        }
    }
    proof {
        lemma_ifft_last_ge(m as int, 1);
        lemma_round_down4((mtrunc + 3) as usize);
    }
    let final_stage = if dist < m {
        Some(Stage2Block { r: 0, dist, log_m: skew_lut[dist - offset] })
    } else {
        None
    };
    IfftPlan {
        mtrunc,
        m,
        initial_blocks,
        later_blocks,
        clear_start: (mtrunc + 3) & !3usize,
        final_stage,
    }
}

/// The positions `(i, r, dist)` for `i` from `start` below `end`: one block
/// per element of a group, all sharing the group's multipliers.
pub open spec fn span(start: int, end: int, r: int, dist: int) -> Seq<(int, int, int)>
    decreases (if start < end {
        end - start
    } else {
        0
    }),
{
    if start < end {
        seq![(start, r, dist)] + span(start + 1, end, r, dist)
    } else {
        seq![]
    }
}

/// One stage of the decoder's forward transform: every element of every
/// group starting at `start, start + step, ...` below `limit`.
pub open spec fn decode_stage(start: int, limit: int, dist: int, step: int) -> Seq<(int, int, int)>
    decreases (if start < limit {
        limit - start
    } else {
        0
    }),
{
    if start < limit && step > 0 {
        span(start, start + dist, start, dist) + decode_stage(start + step, limit, dist, step)
    } else {
        seq![]
    }
}

/// The decoder's forward transform positions over the strides `d4/4, d4/16, ...`.
pub open spec fn fft_decode_positions(mtrunc: int, d4: int) -> Seq<(int, int, int)>
    decreases d4,
{
    if d4 / 4 <= 0 {
        seq![]
    } else {
        decode_stage(0, mtrunc, d4 / 4, d4) + fft_decode_positions(mtrunc, d4 / 4)
    }
}

/// The block for element `t.0` of the group at `t.1` with stride `t.2`,
/// with the group's multipliers read one before the group's quarters end.
pub open spec fn decode_block<L>(skew: Seq<L>, t: (int, int, int)) -> Stage4Block<L> {
    Stage4Block {
        r: t.0 as usize,
        dist: t.2 as usize,
        log_m01: skew[t.1 + t.2 - 1],
        log_m02: skew[t.1 + 2 * t.2 - 1],
        log_m23: skew[t.1 + 3 * t.2 - 1],
    }
}

pub open spec fn decode_blocks<L>(skew: Seq<L>, ts: Seq<(int, int, int)>) -> Seq<Stage4Block<L>> {
    ts.map_values(|t: (int, int, int)| decode_block(skew, t))
}

/// Every decoder block reads inside a table of `len` entries.
pub open spec fn decode_reads_inside(ts: Seq<(int, int, int)>, len: int) -> bool {
    forall|k: int| 0 <= k < ts.len() ==> 0 <= #[trigger] ts[k].1 + ts[k].2 - 1 && ts[k].1 + 3 * ts[k].2 - 1 < len
}

/// The decoder's forward plan: a block for every element of every group, and
/// the same radix-2 tail as the encoder's plan.
pub open spec fn fft_decode_plan_spec<L>(mtrunc: usize, n: usize, skew: Seq<L>) -> (Seq<Stage4Block<L>>, Seq<Stage2Block<L>>) {
    (
        decode_blocks(skew, fft_decode_positions(mtrunc as int, n as int)),
        if fft_last(n as int) == 2 {
            blocks2(skew, strided(0, mtrunc as int, 1, 2))
        } else {
            seq![]
        },
    )
}

pub open spec fn fft_decode_plan_pre(mtrunc: usize, n: usize, len: int) -> bool {
    &&& mtrunc + n <= usize::MAX
    &&& decode_reads_inside(fft_decode_positions(mtrunc as int, n as int), len)
    &&& fft_last(n as int) == 2 ==> reads2_inside(strided(0, mtrunc as int, 1, 2), len)
}

/// Builds the decoder's forward plan, with one block per element of a group.
pub fn build_fft_decode_plan<L: Copy>(mtrunc: usize, n: usize, skew_lut: &[L]) -> (plan: FftPlan<L>)
    requires
        fft_decode_plan_pre(mtrunc, n, skew_lut@.len() as int),
    ensures
        plan.mtrunc == mtrunc,
        (plan.stage4_blocks@, plan.final_stage@) == fft_decode_plan_spec(mtrunc, n, skew_lut@),
{
    let ghost skew = skew_lut@;
    let ghost whole = fft_decode_positions(mtrunc as int, n as int);
    let ghost mut done: Seq<(int, int, int)> = seq![];
    let mut stage4_blocks: Vec<Stage4Block<L>> = Vec::new();
    let mut dist4 = n;
    let mut dist = n >> 2;
    proof {
        lemma_shr2(n);
        assert(stage4_blocks@ =~= decode_blocks(skew, done));
        assert(done + fft_decode_positions(mtrunc as int, n as int) =~= whole);
    }
    while dist != 0
        invariant
            skew == skew_lut@,
            whole == fft_decode_positions(mtrunc as int, n as int),
            fft_decode_plan_pre(mtrunc, n, skew.len() as int),
            dist == dist4 / 4,
            dist4 <= n,
            stage4_blocks@ == decode_blocks(skew, done),
            done + fft_decode_positions(mtrunc as int, dist4 as int) == whole,
            fft_last(dist4 as int) == fft_last(n as int),
        decreases dist4,
    {
        let ghost stage = decode_stage(0, mtrunc as int, dist as int, dist4 as int);
        let ghost rest = fft_decode_positions(mtrunc as int, dist as int);
        assert(fft_decode_positions(mtrunc as int, dist4 as int) == stage + rest);
        let ghost mut sdone: Seq<(int, int, int)> = seq![];
        let mut r: usize = 0;
        proof {
            assert(sdone + decode_stage(0, mtrunc as int, dist as int, dist4 as int) =~= stage);
            assert(done + sdone =~= done);
        }
        while r < mtrunc
            invariant
                skew == skew_lut@,
                whole == fft_decode_positions(mtrunc as int, n as int),
                fft_decode_plan_pre(mtrunc, n, skew.len() as int),
                dist == dist4 / 4,
                dist > 0,
                dist4 <= n,
                stage == decode_stage(0, mtrunc as int, dist as int, dist4 as int),
                done + (stage + rest) == whole,
                sdone + decode_stage(r as int, mtrunc as int, dist as int, dist4 as int) == stage,
                stage4_blocks@ == decode_blocks(skew, done + sdone),
                r <= mtrunc + dist4,
            decreases mtrunc + dist4 - r,
        {
            let ghost after = decode_stage(r + dist4, mtrunc as int, dist as int, dist4 as int);
            assert(decode_stage(r as int, mtrunc as int, dist as int, dist4 as int) == span(
                r as int,
                r + dist,
                r as int,
                dist as int,
            ) + after);
            let i_end = r + dist;
            let mut i = r;
            let ghost mut gdone: Seq<(int, int, int)> = seq![];
            proof {
                assert(gdone + span(r as int, r + dist, r as int, dist as int) =~= span(r as int, r + dist, r as int, dist as int));
                assert(done + sdone + gdone =~= done + sdone);
            }
            while i < i_end
                invariant
                    skew == skew_lut@,
                    whole == fft_decode_positions(mtrunc as int, n as int),
                    fft_decode_plan_pre(mtrunc, n, skew.len() as int),
                    dist > 0,
                    i_end == r + dist,
                    r <= i <= i_end,
                    r < mtrunc,
                    dist4 <= n,
                    done + (sdone + (span(r as int, r + dist, r as int, dist as int) + after) + rest) == whole,
                    gdone + span(i as int, i_end as int, r as int, dist as int) == span(r as int, r + dist, r as int, dist as int),
                    stage4_blocks@ == decode_blocks(skew, done + sdone + gdone),
                decreases i_end - i,
            {
                proof {
                    let t = (i as int, r as int, dist as int);
                    let idx = (done.len() + sdone.len() + gdone.len()) as int;
                    assert(whole[idx] == t) by {
                        assert(whole == done + (sdone + (gdone + (seq![t] + span(
                            i + 1,
                            i_end as int,
                            r as int,
                            dist as int,
                        )) + after) + rest));
                    }
                    assert(0 <= whole[idx].1 + whole[idx].2 - 1 && whole[idx].1 + 3 * whole[idx].2 - 1 < skew.len());
                }
                stage4_blocks.push(
                    Stage4Block {
                        r: i,
                        dist,
                        log_m01: skew_lut[i_end - 1],
                        log_m02: skew_lut[i_end + dist - 1],
                        log_m23: skew_lut[i_end + dist * 2 - 1],
                    },
                );
                proof {
                    let t = (i as int, r as int, dist as int);
                    assert(decode_blocks(skew, (done + sdone + gdone).push(t)) =~= decode_blocks(skew, done + sdone + gdone).push(decode_block(skew, t)));
                    assert((done + sdone + gdone).push(t) =~= done + sdone + gdone.push(t));
                    assert(gdone.push(t) + span(i + 1, i_end as int, r as int, dist as int) =~= gdone + (seq![t] + span(i + 1, i_end as int, r as int, dist as int)));
                    gdone = gdone.push(t);
                }
                i = i + 1;
            }
            proof {
                assert(span(i as int, i_end as int, r as int, dist as int) =~= seq![]);
                assert(gdone =~= span(r as int, r + dist, r as int, dist as int));
                assert(done + sdone + gdone =~= done + (sdone + gdone));
                assert((sdone + gdone) + after =~= sdone + (gdone + after));
                sdone = sdone + gdone;
            }
            r = r + dist4;
        }
        proof {
            assert(decode_stage(r as int, mtrunc as int, dist as int, dist4 as int) =~= seq![]);
            assert(sdone =~= stage);
            assert(done + stage + rest =~= done + (stage + rest));
            done = done + stage;
            lemma_shr2(dist);
        }
        dist4 = dist;
        dist = dist >> 2;
    }
    proof {
        assert(fft_decode_positions(mtrunc as int, dist4 as int) =~= seq![]);
        assert(done =~= whole);
    }
    let final_stage = if dist4 == 2 {
        let ghost all2 = strided(0, mtrunc as int, 1, 2);
        let ghost mut done2: Seq<(int, int)> = seq![];
        let mut blocks: Vec<Stage2Block<L>> = Vec::new();
        let mut r: usize = 0;
        proof {
            assert(done2 + all2 =~= all2);
            assert(blocks@ =~= blocks2(skew, done2));
        }
        while r < mtrunc
            invariant
                skew == skew_lut@,
                fft_decode_plan_pre(mtrunc, n, skew.len() as int),
                fft_last(n as int) == 2,
                all2 == strided(0, mtrunc as int, 1, 2),
                done2 + strided(r as int, mtrunc as int, 1, 2) == all2,
                blocks@ == blocks2(skew, done2),
                r <= mtrunc + 2,
            decreases mtrunc + 2 - r,
        {
            proof {
                lemma_strided_unfold(r as int, mtrunc as int, 1, 2);
                assert(all2[done2.len() as int] == (r as int, 1int));
                assert(0 <= all2[done2.len() as int].0 < skew.len());
            }
            blocks.push(Stage2Block { r, dist: 1, log_m: skew_lut[r] });
            proof {
                let p = (r as int, 1int);
                assert(blocks2(skew, done2.push(p)) =~= blocks2(skew, done2).push(Stage2Block { r: r, dist: 1, log_m: skew[r as int] }));
                assert(done2.push(p) + strided(r + 2, mtrunc as int, 1, 2) =~= done2 + (seq![p] + strided(r + 2, mtrunc as int, 1, 2)));
                done2 = done2.push(p);
            }
            r = r + 2;
        }
        proof {
            assert(strided(r as int, mtrunc as int, 1, 2) =~= seq![]);
            assert(done2 =~= all2);
        }
        blocks
    } else {
        Vec::new()
    };
    FftPlan { mtrunc, stage4_blocks, final_stage }
}

} // verus!
