//! Spectrum grouping: partitioning an FFT magnitude spectrum into bar
//! index-ranges and collapsing each range to a single bar intensity.

use vstd::prelude::*;
use vstd::arithmetic::div_mod::{
    lemma_div_by_multiple, lemma_div_is_ordered, lemma_div_is_ordered_by_denominator,
    lemma_fundamental_div_mod, lemma_mod_bound,
};
use vstd::arithmetic::mul::{lemma_mul_inequality, lemma_mul_upper_bound};
use vstd::arithmetic::power2::{lemma2_to64, lemma_pow2_strictly_increases, pow2};
use crate::errors::VizError;
use crate::fixed::{exp2_scaled, lg2, lg2_int, spec_exp2, spec_lg2};
use crate::{bounded_values, seq_max, seq_sum, lemma_seq_sum_bounds};
use crate::{MAX_MAGNITUDE, SCALE};

verus! {

/// A well-formed range set: every range is non-empty and each range starts
/// no earlier than the previous one ends, so ranges are ordered by start
/// index and pairwise non-overlapping.
pub open spec fn ranges_wf(rs: Seq<(usize, usize)>) -> bool {
    &&& forall|i: int| 0 <= i < rs.len() ==> (#[trigger] rs[i]).0 < rs[i].1
    &&& forall|i: int| 0 < i < rs.len() ==> (#[trigger] rs[i]).0 >= rs[i - 1].1
}

/// Every range of the set fits inside a spectrum of length `len`.
pub open spec fn ranges_within(rs: Seq<(usize, usize)>, len: int) -> bool {
    forall|i: int| 0 <= i < rs.len() ==> (#[trigger] rs[i]).1 <= len
}

/// The bins of `s` that a range covers.
pub open spec fn slice_of(s: Seq<u64>, r: (usize, usize)) -> Seq<u64> {
    s.subrange(r.0 as int, r.1 as int)
}

/// The Mean reduction of one slice: `log2(mean(slice) + 1)` in micro-units.
pub open spec fn log_mean_value(s: Seq<u64>) -> u64
    recommends
        s.len() > 0,
{
    spec_lg2((seq_sum(s) / s.len() as int + SCALE) as u64)
}

/// The Max reduction of one slice: `log2(max(slice) + 1)` in micro-units.
pub open spec fn log_max_value(s: Seq<u64>) -> u64 {
    spec_lg2((seq_max(s) + SCALE) as u64)
}

/// A contiguous cover: the ranges partition `[0, end)` without gaps.
pub open spec fn contiguous_cover(rs: Seq<(usize, usize)>, end: int) -> bool {
    &&& rs.len() >= 1
    &&& rs[0].0 == 0
    &&& rs.last().1 == end
    &&& forall|i: int| 0 < i < rs.len() ==> (#[trigger] rs[i]).0 == rs[i - 1].1
}

/// If `SCALE * 2^k <= v < SCALE * 2^e`, then `k < e`.
proof fn lemma_lg2_int_below(k: nat, v: u64, e: nat)
    requires
        (SCALE as int) * pow2(k) <= v as int,
        (v as int) < (SCALE as int) * pow2(e),
    ensures
        k < e,
{
    if k >= e {
        if k > e {
            lemma_pow2_strictly_increases(e, k);
        }
        lemma_mul_inequality(pow2(e) as int, pow2(k) as int, SCALE as int);
        assert((SCALE as int) * pow2(e) == pow2(e) as int * SCALE as int) by (nonlinear_arith);
        assert((SCALE as int) * pow2(k) == pow2(k) as int * SCALE as int) by (nonlinear_arith);
    }
}

/// `round(freq / freq_per_bin) - 1`, floored at 0 and clamped to `fft`:
/// how a band-edge frequency (micro-Hz) becomes a spectrum bin index.
pub open spec fn spec_bin_from_freq(freq: int, sr: int, fft: int) -> int {
    let idx = (2 * freq * fft + sr * SCALE) / (2 * sr * (SCALE as int));
    let idx1: int = if idx == 0 { 0 } else { idx - 1 };
    if idx1 > fft {
        fft
    } else {
        idx1
    }
}

/// The log2 position (micro-units) of slot boundary `j` of a band: the
/// band's lower edge stepped towards its upper edge in `count` equal
/// increments.
pub open spec fn spec_band_pos(lo_hz: int, hi_hz: int, count: int, j: int) -> int {
    let a = spec_lg2((lo_hz * SCALE) as u64) as int;
    let b = spec_lg2((hi_hz * SCALE) as u64) as int;
    let diff: int = if b >= a { b - a } else { 0 };
    a + j * (diff / count)
}

/// The raw (unclamped) bin index of slot boundary `j` of a band: zero for a
/// band whose lower edge is zero frequency (which has no logarithm), else
/// the bin of the exponentiated log position. Opaque: the layout proofs
/// treat an edge as an atom, only the band builder looks inside.
#[verifier::opaque]
pub open spec fn spec_band_edge(
    lo_hz: int,
    hi_hz: int,
    count: int,
    j: int,
    sr: int,
    fft: int,
) -> int {
    if lo_hz == 0 {
        0
    } else {
        spec_bin_from_freq(
            spec_exp2(spec_band_pos(lo_hz, hi_hz, count, j) as u64) as int, sr, fft)
    }
}

/// Converts a band-edge frequency (micro-Hz) to a spectrum bin index:
/// `round(freq / freq_per_bin) - 1`, floored at 0 and clamped to `fft_size`.
fn bin_from_freq(freq: u64, sample_rate: usize, fft_size: usize) -> (b: usize)
    requires
        1 <= sample_rate <= 1000000,
        2 <= fft_size <= 0x1000000,
        freq <= 65536 * SCALE,
    ensures
        b <= fft_size,
        b as int == spec_bin_from_freq(freq as int, sample_rate as int, fft_size as int),
{
    proof {
        lemma_mul_upper_bound(
            2 * freq as int, 2 * 65536 * SCALE as int, fft_size as int, 0x1000000);
    }
    let num: u64 = 2 * freq * (fft_size as u64) + (sample_rate as u64) * SCALE;
    let den: u64 = 2 * (sample_rate as u64) * SCALE;
    let idx: u64 = num / den;
    let idx: u64 = if idx == 0 { 0 } else { idx - 1 };
    if idx > fft_size as u64 {
        fft_size
    } else {
        idx as usize
    }
}

/// Appends `count` logarithmically spaced ranges covering the band
/// `[lo_hz, hi_hz]`, clamping each new range to start no earlier than the
/// previous one ends and to span at least one bin. A band starting at 0 Hz
/// has no logarithm; its computed edges stay at zero and the clamp yields
/// consecutive unit-width ranges.
#[verifier::rlimit(100)]
fn push_band_ranges(
    ranges: &mut Vec<(usize, usize)>,
    last_end: &mut usize,
    count: usize,
    lo_hz: u64,
    hi_hz: u64,
    sample_rate: usize,
    fft_size: usize,
)
    requires
        ranges_wf(old(ranges)@),
        old(ranges)@.len() > 0 ==> old(ranges)@.last().1 <= *old(last_end),
        *old(last_end) <= fft_size + old(ranges)@.len(),
        old(ranges)@.len() + count <= 65536,
        lo_hz < hi_hz <= 20000,
        1 <= sample_rate <= 1000000,
        2 <= fft_size <= 0x1000000,
    ensures
        final(ranges)@.len() == old(ranges)@.len() + count,
        forall|i: int| 0 <= i < old(ranges)@.len() ==> final(ranges)@[i] == old(ranges)@[i],
        ranges_wf(final(ranges)@),
        final(ranges)@.len() > 0 ==> final(ranges)@.last().1 <= *final(last_end),
        *final(last_end) <= fft_size + final(ranges)@.len(),
        *final(last_end) >= *old(last_end),
        count > 0 ==> *final(last_end) as int == final(ranges)@.last().1 as int,
        count == 0 ==> *final(last_end) == *old(last_end),
        forall|jj: int| 0 <= jj < count ==> #[trigger] band_slot_clamped(
            final(ranges)@, old(ranges)@.len() as int, jj, lo_hz as int, hi_hz as int,
            count as int, sample_rate as int, fft_size as int, *old(last_end) as int),
{
    let (llo, diff): (u64, u64) = if lo_hz == 0 {
        (0, 0)
    } else {
        let a = lg2(lo_hz * SCALE);
        let b = lg2(hi_hz * SCALE);
        proof {
            lemma2_to64();
            lemma_lg2_int_below(lg2_int((lo_hz * SCALE) as u64), (lo_hz * SCALE) as u64, 15);
            lemma_lg2_int_below(lg2_int((hi_hz * SCALE) as u64), (hi_hz * SCALE) as u64, 15);
        }
        (a, if b >= a { b - a } else { 0 })
    };
    if count == 0 {
        return;
    }
    let step: u64 = diff / (count as u64);
    let mut j: usize = 0;
    while j < count
        invariant
            j <= count,
            0 < count,
            old(ranges)@.len() + count <= 65536,
            ranges@.len() == old(ranges)@.len() + j,
            forall|i: int| 0 <= i < old(ranges)@.len() ==> ranges@[i] == old(ranges)@[i],
            ranges_wf(ranges@),
            ranges@.len() > 0 ==> ranges@.last().1 <= *last_end,
            old(ranges)@.len() > 0 ==> old(ranges)@.last().1 <= *last_end,
            *last_end <= fft_size + ranges@.len(),
            *last_end >= *old(last_end),
            1 <= sample_rate <= 1000000,
            2 <= fft_size <= 0x1000000,
            lo_hz < hi_hz <= 20000,
            llo + diff <= 15 * SCALE,
            step == diff / (count as u64),
            lo_hz == 0 ==> llo == 0 && diff == 0,
            lo_hz > 0 ==> llo == spec_lg2((lo_hz * SCALE) as u64),
            lo_hz > 0 ==> diff as int == ({
                let a = spec_lg2((lo_hz * SCALE) as u64) as int;
                let b2 = spec_lg2((hi_hz * SCALE) as u64) as int;
                if b2 >= a { b2 - a } else { 0int }
            }),
            j == 0 ==> *last_end == *old(last_end),
            j > 0 ==> *last_end as int == ranges@.last().1 as int,
            forall|jj: int| 0 <= jj < j as int ==> #[trigger] band_slot_clamped(
                ranges@, old(ranges)@.len() as int, jj, lo_hz as int, hi_hz as int,
                count as int, sample_rate as int, fft_size as int, *old(last_end) as int),
        decreases count - j,
    {
        let (clo, chi): (usize, usize) = if lo_hz == 0 {
            (0, 0)
        } else {
            proof {
                lemma_fundamental_div_mod(diff as int, count as int);
                lemma_mul_inequality(j as int + 1, count as int, step as int);
                lemma2_to64();
                let e: int = llo + (j + 1) * step;
                if (e / (SCALE as int)) < 15 {
                    lemma_pow2_strictly_increases((e / (SCALE as int)) as nat, 15);
                }
                let e2: int = llo + j as int * step;
                lemma_mul_inequality(j as int, count as int, step as int);
                if (e2 / (SCALE as int)) < 15 {
                    lemma_pow2_strictly_increases((e2 / (SCALE as int)) as nat, 15);
                }
                assert(llo + j as int * step
                    == spec_band_pos(lo_hz as int, hi_hz as int, count as int, j as int));
                assert(llo + (j + 1) * step
                    == spec_band_pos(lo_hz as int, hi_hz as int, count as int, j as int + 1));
            }
            let f_lo = exp2_scaled(llo + (j as u64) * step);
            let f_hi = exp2_scaled(llo + (j as u64 + 1) * step);
            (
                bin_from_freq(f_lo, sample_rate, fft_size),
                bin_from_freq(f_hi, sample_rate, fft_size),
            )
        };
        proof {
            reveal(spec_band_edge);
            assert(clo as int == spec_band_edge(lo_hz as int, hi_hz as int, count as int,
                j as int, sample_rate as int, fft_size as int));
            assert(chi as int == spec_band_edge(lo_hz as int, hi_hz as int, count as int,
                j as int + 1, sample_rate as int, fft_size as int));
        }
        let start: usize = if clo > *last_end { clo } else { *last_end };
        let end: usize = if chi > start + 1 { chi } else { start + 1 };
        let ghost rrpre = ranges@;
        ranges.push((start, end));
        *last_end = end;
        proof {
            let base = old(ranges)@.len() as int;
            assert forall|jj: int| 0 <= jj < j as int + 1 implies #[trigger] band_slot_clamped(
                ranges@, base, jj, lo_hz as int, hi_hz as int,
                count as int, sample_rate as int, fft_size as int,
                *old(last_end) as int) by {
                if jj < j as int {
                    assert(band_slot_clamped(rrpre, base, jj, lo_hz as int, hi_hz as int,
                        count as int, sample_rate as int, fft_size as int,
                        *old(last_end) as int));
                    assert(ranges@[base + jj] == rrpre[base + jj]);
                    if jj > 0 {
                        assert(ranges@[base + jj - 1] == rrpre[base + jj - 1]);
                    }
                } else {
                    assert(ranges@[base + jj] == (start, end));
                    if jj > 0 {
                        assert(ranges@[base + jj - 1] == rrpre.last());
                    }
                }
            }
        }
        j = j + 1;
    }
}

/// The lower frequency edge of perceptual band `b`, in Hz.
pub open spec fn band_lo_hz(b: int) -> int {
    if b == 0 { 0 } else if b == 1 { 60 } else if b == 2 { 250 }
    else if b == 3 { 500 } else if b == 4 { 2000 } else { 6000 }
}

/// The upper frequency edge of perceptual band `b`, in Hz.
pub open spec fn band_hi_hz(b: int) -> int {
    if b == 0 { 60 } else if b == 1 { 250 } else if b == 2 { 500 }
    else if b == 3 { 2000 } else if b == 4 { 6000 } else { 20000 }
}

/// The proportional weight of band `b`, in percent; the six weights sum to
/// one hundred.
pub open spec fn band_weight_pct(b: int) -> int {
    if b == 0 { 8 } else if b == 1 { 16 } else if b == 2 { 16 }
    else if b == 3 { 26 } else if b == 4 { 22 } else { 12 }
}

/// The flooring shortfall: bars left over once each band takes its floored
/// share; at most five, since each of the six floors loses under one bar.
pub open spec fn band_shortfall(num_bars: int) -> int {
    num_bars - (num_bars * 8 / 100 + num_bars * 16 / 100 + num_bars * 16 / 100
        + num_bars * 26 / 100 + num_bars * 22 / 100 + num_bars * 12 / 100)
}

/// How many bars band `b` receives: its floored share, plus one extra bar
/// while the shortfall lasts, earliest bands first.
pub open spec fn band_count(num_bars: int, b: int) -> int {
    num_bars * band_weight_pct(b) / 100
        + if b < band_shortfall(num_bars) { 1int } else { 0int }
}

/// The slot where band `b`'s ranges begin.
pub open spec fn band_first(num_bars: int, b: int) -> int
    decreases b,
{
    if b <= 0 {
        0
    } else {
        band_first(num_bars, b - 1) + band_count(num_bars, b - 1)
    }
}

/// The band that slot `t` belongs to.
pub open spec fn slot_band(num_bars: int, t: int) -> int {
    if t < band_first(num_bars, 1) { 0 }
    else if t < band_first(num_bars, 2) { 1 }
    else if t < band_first(num_bars, 3) { 2 }
    else if t < band_first(num_bars, 4) { 3 }
    else if t < band_first(num_bars, 5) { 4 }
    else { 5 }
}

/// Slot `base + jj` of a range sequence holds exactly the clamped raw
/// edges of one band slot: the start is the slot's raw edge clamped to
/// `init_end` (for the band's first slot) or the previous range's end, and
/// the end is the next raw edge widened to at least one bin past the start.
pub open spec fn band_slot_clamped(
    rs: Seq<(usize, usize)>,
    base: int,
    jj: int,
    lo: int,
    hi: int,
    count: int,
    sr: int,
    fft: int,
    init_end: int,
) -> bool {
    let t = base + jj;
    let prev: int = if jj == 0 { init_end } else { rs[t - 1].1 as int };
    let e0 = spec_band_edge(lo, hi, count, jj, sr, fft);
    let e1 = spec_band_edge(lo, hi, count, jj + 1, sr, fft);
    let start: int = if e0 > prev { e0 } else { prev };
    &&& rs[t].0 as int == start
    &&& rs[t].1 as int == (if e1 > start + 1 { e1 } else { start + 1 })
}

/// Slot `t` of the LogMusicRange layout holds exactly the clamped raw
/// edges of its band.
pub open spec fn log_slot_matches(
    rs: Seq<(usize, usize)>,
    num_bars: int,
    t: int,
    sr: int,
    fft: int,
) -> bool {
    let b = slot_band(num_bars, t);
    band_slot_clamped(
        rs,
        band_first(num_bars, b),
        t - band_first(num_bars, b),
        band_lo_hz(b),
        band_hi_hz(b),
        band_count(num_bars, b),
        sr,
        fft,
        if t == 0 { 0int } else { rs[t - 1].1 as int },
    )
}

/// Distributes the requested bar count over the six bands: each takes its
/// floored share, and the flooring shortfall goes one bar at a time to the
/// earliest bands, so the shares sum to the request exactly.
fn allocate_band_bars(num_bars: usize) -> (alloc: (usize, usize, usize, usize, usize, usize))
    requires
        1 <= num_bars <= 65536,
    ensures
        alloc.0 as int == band_count(num_bars as int, 0),
        alloc.1 as int == band_count(num_bars as int, 1),
        alloc.2 as int == band_count(num_bars as int, 2),
        alloc.3 as int == band_count(num_bars as int, 3),
        alloc.4 as int == band_count(num_bars as int, 4),
        alloc.5 as int == band_count(num_bars as int, 5),
        alloc.0 + alloc.1 + alloc.2 + alloc.3 + alloc.4 + alloc.5 == num_bars,
{
    let w0: usize = num_bars * 8 / 100;
    let w1: usize = num_bars * 16 / 100;
    let w2: usize = num_bars * 16 / 100;
    let w3: usize = num_bars * 26 / 100;
    let w4: usize = num_bars * 22 / 100;
    let w5: usize = num_bars * 12 / 100;
    let sum: usize = w0 + w1 + w2 + w3 + w4 + w5;
    proof {
        lemma_fundamental_div_mod(num_bars as int * 8, 100);
        lemma_fundamental_div_mod(num_bars as int * 16, 100);
        lemma_fundamental_div_mod(num_bars as int * 26, 100);
        lemma_fundamental_div_mod(num_bars as int * 22, 100);
        lemma_fundamental_div_mod(num_bars as int * 12, 100);
        lemma_mod_bound(num_bars as int * 8, 100);
        lemma_mod_bound(num_bars as int * 16, 100);
        lemma_mod_bound(num_bars as int * 26, 100);
        lemma_mod_bound(num_bars as int * 22, 100);
        lemma_mod_bound(num_bars as int * 12, 100);
    }
    let d: usize = num_bars - sum;
    proof {
        assert(band_shortfall(num_bars as int) == d as int);
    }
    let b0: usize = w0 + (if d >= 1 { 1 } else { 0 });
    let b1: usize = w1 + (if d >= 2 { 1 } else { 0 });
    let b2: usize = w2 + (if d >= 3 { 1 } else { 0 });
    let b3: usize = w3 + (if d >= 4 { 1 } else { 0 });
    let b4: usize = w4 + (if d >= 5 { 1 } else { 0 });
    let b5: usize = w5;
    (b0, b1, b2, b3, b4, b5)
}

/// Carries one band's elementwise construction law over to the final
/// sequence: within the band's slots, each range is its raw edges clamped
/// against the previous range's end.
proof fn lemma_band_slots(
    pre: Seq<(usize, usize)>,
    post: Seq<(usize, usize)>,
    fin: Seq<(usize, usize)>,
    pre_end: int,
    nbi: int,
    b: int,
    sr: int,
    fft: int,
)
    requires
        0 <= b < 6,
        pre.len() == band_first(nbi, b),
        post.len() == pre.len() + band_count(nbi, b),
        fin.len() >= post.len(),
        forall|i: int| 0 <= i < pre.len() ==> #[trigger] post[i] == pre[i],
        forall|i: int| 0 <= i < post.len() ==> #[trigger] fin[i] == post[i],
        pre.len() > 0 ==> pre_end == pre.last().1 as int,
        pre.len() == 0 ==> pre_end == 0,
        forall|t: int| pre.len() <= t < post.len() ==> #[trigger] slot_band(nbi, t) == b,
        forall|jj: int| 0 <= jj < band_count(nbi, b) ==> #[trigger] band_slot_clamped(
            post, pre.len() as int, jj, band_lo_hz(b), band_hi_hz(b), band_count(nbi, b),
            sr, fft, pre_end),
    ensures
        forall|t: int| pre.len() <= t < post.len()
            ==> #[trigger] log_slot_matches(fin, nbi, t, sr, fft),
{
    assert forall|t: int| pre.len() <= t < post.len()
        implies #[trigger] log_slot_matches(fin, nbi, t, sr, fft) by {
        let jj = t - pre.len() as int;
        assert(band_slot_clamped(post, pre.len() as int, jj, band_lo_hz(b), band_hi_hz(b),
            band_count(nbi, b), sr, fft, pre_end));
        assert(fin[t] == post[t]);
        if t > 0 {
            assert(fin[t - 1] == post[t - 1]);
            if jj == 0 {
                assert(post[t - 1] == pre[t - 1]);
                assert(pre[t - 1] == pre.last());
            }
        }
    }
}

/// Assembles the six bands' construction laws into the whole layout law:
/// every slot of the final sequence is its band's clamped raw edges.
#[verifier::rlimit(100)]
proof fn lemma_log_layout(
    s0: Seq<(usize, usize)>,
    s1: Seq<(usize, usize)>,
    s2: Seq<(usize, usize)>,
    s3: Seq<(usize, usize)>,
    s4: Seq<(usize, usize)>,
    s5: Seq<(usize, usize)>,
    fin: Seq<(usize, usize)>,
    t1: int,
    t2: int,
    t3: int,
    t4: int,
    t5: int,
    nbi: int,
    sr: int,
    fft: int,
)
    requires
        s0.len() == 0,
        s1.len() == s0.len() + band_count(nbi, 0),
        s2.len() == s1.len() + band_count(nbi, 1),
        s3.len() == s2.len() + band_count(nbi, 2),
        s4.len() == s3.len() + band_count(nbi, 3),
        s5.len() == s4.len() + band_count(nbi, 4),
        fin.len() == s5.len() + band_count(nbi, 5),
        fin.len() == nbi,
        forall|i: int| 0 <= i < s1.len() ==> #[trigger] s2[i] == s1[i],
        forall|i: int| 0 <= i < s2.len() ==> #[trigger] s3[i] == s2[i],
        forall|i: int| 0 <= i < s3.len() ==> #[trigger] s4[i] == s3[i],
        forall|i: int| 0 <= i < s4.len() ==> #[trigger] s5[i] == s4[i],
        forall|i: int| 0 <= i < s5.len() ==> #[trigger] fin[i] == s5[i],
        forall|jj: int| 0 <= jj < band_count(nbi, 0) ==> #[trigger] band_slot_clamped(
            s1, s0.len() as int, jj, band_lo_hz(0), band_hi_hz(0), band_count(nbi, 0),
            sr, fft, 0),
        forall|jj: int| 0 <= jj < band_count(nbi, 1) ==> #[trigger] band_slot_clamped(
            s2, s1.len() as int, jj, band_lo_hz(1), band_hi_hz(1), band_count(nbi, 1),
            sr, fft, t1),
        forall|jj: int| 0 <= jj < band_count(nbi, 2) ==> #[trigger] band_slot_clamped(
            s3, s2.len() as int, jj, band_lo_hz(2), band_hi_hz(2), band_count(nbi, 2),
            sr, fft, t2),
        forall|jj: int| 0 <= jj < band_count(nbi, 3) ==> #[trigger] band_slot_clamped(
            s4, s3.len() as int, jj, band_lo_hz(3), band_hi_hz(3), band_count(nbi, 3),
            sr, fft, t3),
        forall|jj: int| 0 <= jj < band_count(nbi, 4) ==> #[trigger] band_slot_clamped(
            s5, s4.len() as int, jj, band_lo_hz(4), band_hi_hz(4), band_count(nbi, 4),
            sr, fft, t4),
        forall|jj: int| 0 <= jj < band_count(nbi, 5) ==> #[trigger] band_slot_clamped(
            fin, s5.len() as int, jj, band_lo_hz(5), band_hi_hz(5), band_count(nbi, 5),
            sr, fft, t5),
        s1.len() > 0 ==> t1 == s1.last().1 as int,
        s1.len() == 0 ==> t1 == 0,
        s2.len() > 0 ==> t2 == s2.last().1 as int,
        s2.len() == 0 ==> t2 == 0,
        s3.len() > 0 ==> t3 == s3.last().1 as int,
        s3.len() == 0 ==> t3 == 0,
        s4.len() > 0 ==> t4 == s4.last().1 as int,
        s4.len() == 0 ==> t4 == 0,
        s5.len() > 0 ==> t5 == s5.last().1 as int,
        s5.len() == 0 ==> t5 == 0,
    ensures
        forall|t: int| 0 <= t < nbi ==> #[trigger] log_slot_matches(fin, nbi, t, sr, fft),
{
    assert(band_first(nbi, 0) == 0);
    assert(band_first(nbi, 1) == band_first(nbi, 0) + band_count(nbi, 0));
    assert(band_first(nbi, 2) == band_first(nbi, 1) + band_count(nbi, 1));
    assert(band_first(nbi, 3) == band_first(nbi, 2) + band_count(nbi, 2));
    assert(band_first(nbi, 4) == band_first(nbi, 3) + band_count(nbi, 3));
    assert(band_first(nbi, 5) == band_first(nbi, 4) + band_count(nbi, 4));
    assert(band_first(nbi, 1) == s1.len());
    assert(band_first(nbi, 2) == s2.len());
    assert(band_first(nbi, 3) == s3.len());
    assert(band_first(nbi, 4) == s4.len());
    assert(band_first(nbi, 5) == s5.len());
    assert forall|i: int| 0 <= i < s1.len() implies #[trigger] fin[i] == s1[i] by {
        assert(s2[i] == s1[i]);
        assert(s3[i] == s2[i]);
        assert(s4[i] == s3[i]);
        assert(s5[i] == s4[i]);
        assert(fin[i] == s5[i]);
    }
    assert forall|i: int| 0 <= i < s2.len() implies #[trigger] fin[i] == s2[i] by {
        assert(s3[i] == s2[i]);
        assert(s4[i] == s3[i]);
        assert(s5[i] == s4[i]);
        assert(fin[i] == s5[i]);
    }
    assert forall|i: int| 0 <= i < s3.len() implies #[trigger] fin[i] == s3[i] by {
        assert(s4[i] == s3[i]);
        assert(s5[i] == s4[i]);
        assert(fin[i] == s5[i]);
    }
    assert forall|i: int| 0 <= i < s4.len() implies #[trigger] fin[i] == s4[i] by {
        assert(s5[i] == s4[i]);
        assert(fin[i] == s5[i]);
    }
    assert forall|i: int| 0 <= i < s5.len() implies #[trigger] fin[i] == s5[i] by {
        assert(fin[i] == s5[i]);
    }
    assert forall|t: int| s0.len() <= t < s1.len()
        implies #[trigger] slot_band(nbi, t) == 0 by {}
    lemma_band_slots(s0, s1, fin, 0int, nbi, 0, sr, fft);
    assert forall|t: int| s1.len() <= t < s2.len()
        implies #[trigger] slot_band(nbi, t) == 1 by {}
    lemma_band_slots(s1, s2, fin, t1, nbi, 1, sr, fft);
    assert forall|t: int| s2.len() <= t < s3.len()
        implies #[trigger] slot_band(nbi, t) == 2 by {}
    lemma_band_slots(s2, s3, fin, t2, nbi, 2, sr, fft);
    assert forall|t: int| s3.len() <= t < s4.len()
        implies #[trigger] slot_band(nbi, t) == 3 by {}
    lemma_band_slots(s3, s4, fin, t3, nbi, 3, sr, fft);
    assert forall|t: int| s4.len() <= t < s5.len()
        implies #[trigger] slot_band(nbi, t) == 4 by {}
    lemma_band_slots(s4, s5, fin, t4, nbi, 4, sr, fft);
    assert forall|t: int| s5.len() <= t < fin.len()
        implies #[trigger] slot_band(nbi, t) == 5 by {}
    lemma_band_slots(s5, fin, fin, t5, nbi, 5, sr, fft);
}

/// Builds the LogMusicRange layout: six perceptual bands with fixed
/// proportional weights (8%, 16%, 16%, 26%, 22%, 12% — summing to one),
/// each band's bars spaced logarithmically in frequency. The shortfall that
/// flooring leaves is given one bar at a time to the earliest bands, so the
/// number of ranges equals the requested bar count exactly; beyond the
/// count and the well-formedness of the set, every slot is pinned to its
/// band's clamped raw edges (`log_slot_matches`).
#[verifier::rlimit(100)]
pub fn log_ranges(num_bars: usize, sample_rate: usize, fft_size: usize) -> (r: Vec<(usize, usize)>)
    requires
        1 <= num_bars <= 65536,
        1 <= sample_rate <= 1000000,
        2 <= fft_size <= 0x1000000,
    ensures
        r@.len() == num_bars,
        ranges_wf(r@),
        forall|t: int| #![trigger r@[t]] 0 <= t < num_bars
            ==> log_slot_matches(r@, num_bars as int, t, sample_rate as int, fft_size as int),
{
    let (b0, b1, b2, b3, b4, b5) = allocate_band_bars(num_bars);
    let mut ranges: Vec<(usize, usize)> = Vec::new();
    let mut last_end: usize = 0;
    let ghost nbi = num_bars as int;
    let ghost s0 = ranges@;
    push_band_ranges(&mut ranges, &mut last_end, b0, 0, 60, sample_rate, fft_size);
    let ghost s1 = ranges@;
    let ghost t1 = last_end as int;
    push_band_ranges(&mut ranges, &mut last_end, b1, 60, 250, sample_rate, fft_size);
    let ghost s2 = ranges@;
    let ghost t2 = last_end as int;
    push_band_ranges(&mut ranges, &mut last_end, b2, 250, 500, sample_rate, fft_size);
    let ghost s3 = ranges@;
    let ghost t3 = last_end as int;
    push_band_ranges(&mut ranges, &mut last_end, b3, 500, 2000, sample_rate, fft_size);
    let ghost s4 = ranges@;
    let ghost t4 = last_end as int;
    push_band_ranges(&mut ranges, &mut last_end, b4, 2000, 6000, sample_rate, fft_size);
    let ghost s5 = ranges@;
    let ghost t5 = last_end as int;
    push_band_ranges(&mut ranges, &mut last_end, b5, 6000, 20000, sample_rate, fft_size);
    proof {
        assert(s1.len() == 0 ==> t1 == 0);
        assert(s1.len() > 0 ==> t1 == s1.last().1 as int);
        assert(s2.len() == 0 ==> t2 == 0);
        assert(s2.len() > 0 ==> t2 == s2.last().1 as int);
        assert(s3.len() == 0 ==> t3 == 0);
        assert(s3.len() > 0 ==> t3 == s3.last().1 as int);
        assert(s4.len() == 0 ==> t4 == 0);
        assert(s4.len() > 0 ==> t4 == s4.last().1 as int);
        assert(s5.len() == 0 ==> t5 == 0);
        assert(s5.len() > 0 ==> t5 == s5.last().1 as int);
        lemma_log_layout(
            s0, s1, s2, s3, s4, s5, ranges@, t1, t2, t3, t4, t5, nbi,
            sample_rate as int, fft_size as int);
    }
    ranges
}

/// The gamma-corrected bar index of bin `i` out of `half`, exactly as the
/// fixed-point kernel computes it: `2^(-(log2(half) - log2(i)) / gamma)`
/// scaled by the bar count, with exponents beyond 40 collapsing to bar 0.
pub open spec fn spec_gamma_bar(i: int, half: int, num_bins: int, gamma: int) -> int
    recommends
        1 <= i < half,
        1 <= gamma,
{
    let li = spec_lg2((i * SCALE) as u64) as int;
    let lh = spec_lg2((half * SCALE) as u64) as int;
    let d: int = if lh >= li { lh - li } else { 0 };
    let e = d * SCALE / (gamma as int);
    if e > 40 * SCALE {
        0
    } else {
        let p = spec_exp2(e as u64) as int;
        let inv = SCALE as int * SCALE as int / p;
        inv * num_bins / (SCALE as int)
    }
}

/// The bar index that drives boundary emission for bin `i`; bin 0 (zero
/// frequency) sits in bar 0.
pub open spec fn gamma_bin_bar(i: int, half: int, num_bins: int, gamma: int) -> int {
    if i <= 0 {
        0
    } else {
        spec_gamma_bar(i, half, num_bins, gamma)
    }
}

/// The gamma layout law: the ranges partition the half spectrum, every bin
/// inside a range shares the bar index of the range's first bin, and
/// consecutive ranges start on different bar indices — a boundary is
/// emitted exactly where the bar index changes.
pub open spec fn gamma_layout(
    rs: Seq<(usize, usize)>,
    half: int,
    num_bins: int,
    gamma: int,
) -> bool {
    &&& contiguous_cover(rs, half)
    &&& forall|t: int, j: int| #![trigger rs[t], gamma_bin_bar(j, half, num_bins, gamma)]
        0 <= t < rs.len() && rs[t].0 < j < rs[t].1
        ==> gamma_bin_bar(j, half, num_bins, gamma)
            == gamma_bin_bar(rs[t].0 as int, half, num_bins, gamma)
    &&& forall|t: int| 0 < t < rs.len()
        ==> gamma_bin_bar((#[trigger] rs[t]).0 as int, half, num_bins, gamma)
            != gamma_bin_bar(rs[t - 1].0 as int, half, num_bins, gamma)
}

/// The bar index of bin `i` under gamma correction:
/// `floor((i / half)^(1 / gamma) * num_bins)`, computed through base-2
/// logarithms as `2^(-(log2(half) - log2(i)) / gamma) * num_bins`.
fn gamma_bar(i: u64, half: u64, num_bins: u64, gamma: u64) -> (b: u64)
    requires
        1 <= i < half,
        half <= 0x800000,
        num_bins <= 65536,
        1 <= gamma,
    ensures
        b <= num_bins,
        b as int == spec_gamma_bar(i as int, half as int, num_bins as int, gamma as int),
{
    proof {
        lemma2_to64();
    }
    let li = lg2(i * SCALE);
    let lh = lg2(half * SCALE);
    proof {
        lemma_lg2_int_below(lg2_int((half * SCALE) as u64), (half * SCALE) as u64, 24);
    }
    let d: u64 = if lh >= li { lh - li } else { 0 };
    let e: u64 = d * SCALE / gamma;
    if e > 40 * SCALE {
        // The normalized frequency is so small that the corrected value
        // rounds to the lowest bar.
        return 0;
    }
    let p: u64 = exp2_scaled(e);
    proof {
        lemma_div_is_ordered_by_denominator(SCALE as int * SCALE as int, SCALE as int, p as int);
        lemma_div_by_multiple(SCALE as int, SCALE as int);
        assert(SCALE as int * SCALE as int == SCALE * SCALE) by (nonlinear_arith);
    }
    let inv: u64 = SCALE * SCALE / p;
    proof {
        lemma_mul_inequality(inv as int, SCALE as int, num_bins as int);
        lemma_div_is_ordered(inv as int * num_bins as int, SCALE as int * num_bins as int,
            SCALE as int);
        lemma_div_by_multiple(num_bins as int, SCALE as int);
        assert(SCALE as int * num_bins as int == num_bins as int * SCALE as int)
            by (nonlinear_arith);
        lemma_mul_upper_bound(inv as int, SCALE as int, num_bins as int, 65536);
    }
    inv * num_bins / SCALE
}

/// Builds the gamma-corrected layout: every bin of the spectrum half is
/// assigned the bar index `floor((freq / nyquist)^(1 / gamma) * num_bins)`,
/// and a new range boundary is emitted exactly where that index changes as
/// the bin index increases. The ranges partition the spectrum
/// `[0, fft_size / 2)`.
#[verifier::rlimit(60)]
fn gamma_corrected_ranges(
    num_bins: usize,
    _sample_rate: usize,
    fft_size: usize,
    gamma: u64,
) -> (r: Vec<(usize, usize)>)
    requires
        num_bins <= 65536,
        2 <= fft_size <= 0x1000000,
        1 <= gamma,
    ensures
        ranges_wf(r@),
        gamma_layout(r@, fft_size as int / 2, num_bins as int, gamma as int),
{
    let half: usize = fft_size / 2;
    let ghost hi = half as int;
    let ghost nb = num_bins as int;
    let ghost ga = gamma as int;
    let mut ranges: Vec<(usize, usize)> = Vec::new();
    let mut range_start: usize = 0;
    let mut prev_bar: u64 = 0;
    let mut i: usize = 1;
    while i < half
        invariant
            1 <= i,
            range_start < i <= half <= 0x800000,
            num_bins <= 65536,
            1 <= gamma,
            hi == half as int && nb == num_bins as int && ga == gamma as int,
            ranges_wf(ranges@),
            ranges@.len() > 0 ==> ranges@[0].0 == 0 && ranges@.last().1 == range_start,
            ranges@.len() == 0 ==> range_start == 0,
            forall|k: int| 0 < k < ranges@.len()
                ==> (#[trigger] ranges@[k]).0 == ranges@[k - 1].1,
            prev_bar as int == gamma_bin_bar(range_start as int, hi, nb, ga),
            forall|j: int| range_start < j < i as int
                ==> #[trigger] gamma_bin_bar(j, hi, nb, ga)
                    == gamma_bin_bar(range_start as int, hi, nb, ga),
            forall|t: int, j: int| #![trigger ranges@[t], gamma_bin_bar(j, hi, nb, ga)]
                0 <= t < ranges@.len() && ranges@[t].0 < j < ranges@[t].1
                ==> gamma_bin_bar(j, hi, nb, ga)
                    == gamma_bin_bar(ranges@[t].0 as int, hi, nb, ga),
            forall|t: int| 0 < t < ranges@.len()
                ==> gamma_bin_bar((#[trigger] ranges@[t]).0 as int, hi, nb, ga)
                    != gamma_bin_bar(ranges@[t - 1].0 as int, hi, nb, ga),
            ranges@.len() > 0 ==> gamma_bin_bar(range_start as int, hi, nb, ga)
                != gamma_bin_bar(ranges@.last().0 as int, hi, nb, ga),
        decreases half - i,
    {
        let b = gamma_bar(i as u64, half as u64, num_bins as u64, gamma);
        if b != prev_bar {
            ranges.push((range_start, i));
            range_start = i;
            prev_bar = b;
        }
        i = i + 1;
    }
    ranges.push((range_start, half));
    ranges
}

/// Collapses each bar range to `log2(mean(range) + 1)`.
fn take_log_mean_ranges(spectrum: &Vec<u64>, bar_ranges: &Vec<(usize, usize)>) -> (bars: Vec<u64>)
    requires
        bounded_values(spectrum@),
        forall|i: int| 0 <= i < bar_ranges@.len()
            ==> (#[trigger] bar_ranges@[i]).0 < bar_ranges@[i].1 <= spectrum@.len(),
    ensures
        bars@.len() == bar_ranges@.len(),
        forall|i: int| 0 <= i < bars@.len()
            ==> #[trigger] bars@[i] == log_mean_value(slice_of(spectrum@, bar_ranges@[i])),
        forall|i: int| 0 <= i < bars@.len() ==> #[trigger] bars@[i] <= 64 * SCALE,
{
    let mut bars: Vec<u64> = Vec::new();
    let mut i: usize = 0;
    while i < bar_ranges.len()
        invariant
            bounded_values(spectrum@),
            forall|k: int| 0 <= k < bar_ranges@.len()
                ==> (#[trigger] bar_ranges@[k]).0 < bar_ranges@[k].1 <= spectrum@.len(),
            i <= bar_ranges@.len(),
            bars@.len() == i,
            forall|k: int| 0 <= k < i as int
                ==> #[trigger] bars@[k] == log_mean_value(slice_of(spectrum@, bar_ranges@[k])),
            forall|k: int| 0 <= k < i as int ==> #[trigger] bars@[k] <= 64 * SCALE,
        decreases bar_ranges@.len() - i,
    {
        let (start, end) = bar_ranges[i];
        let width: usize = end - start;
        let ghost whole = slice_of(spectrum@, bar_ranges@[i as int]);
        let mut sum: u128 = 0;
        let mut j: usize = start;
        while j < end
            invariant
                bounded_values(spectrum@),
                start <= j <= end <= spectrum@.len(),
                start < end,
                sum as int == seq_sum(spectrum@.subrange(start as int, j as int)),
                sum as int <= (j - start) * MAX_MAGNITUDE,
            decreases end - j,
        {
            proof {
                let pre = spectrum@.subrange(start as int, j as int);
                let post = spectrum@.subrange(start as int, j as int + 1);
                assert(post.drop_last() =~= pre);
                assert(post.last() == spectrum@[j as int]);
                assert((j - start) * MAX_MAGNITUDE + MAX_MAGNITUDE
                    == (j + 1 - start) * MAX_MAGNITUDE) by (nonlinear_arith);
                lemma_mul_upper_bound(
                    (j + 1 - start) as int, spectrum@.len() as int,
                    MAX_MAGNITUDE as int, MAX_MAGNITUDE as int,
                );
            }
            sum = sum + spectrum[j] as u128;
            j = j + 1;
        }
        proof {
            assert(spectrum@.subrange(start as int, end as int) =~= whole);
            lemma_seq_sum_bounds(whole, MAX_MAGNITUDE);
            lemma_div_is_ordered(
                seq_sum(whole), whole.len() as int * MAX_MAGNITUDE, whole.len() as int);
            assert(whole.len() as int * MAX_MAGNITUDE == MAX_MAGNITUDE as int * whole.len() as int)
                by (nonlinear_arith);
            lemma_div_by_multiple(MAX_MAGNITUDE as int, whole.len() as int);
        }
        let mean: u64 = (sum / width as u128) as u64;
        let value: u64 = lg2(mean + SCALE);
        bars.push(value);
        i = i + 1;
    }
    bars
}

/// Collapses each bar range to `log2(max(range) + 1)`.
fn take_log_max_ranges(spectrum: &Vec<u64>, bar_ranges: &Vec<(usize, usize)>) -> (bars: Vec<u64>)
    requires
        bounded_values(spectrum@),
        forall|i: int| 0 <= i < bar_ranges@.len()
            ==> (#[trigger] bar_ranges@[i]).0 < bar_ranges@[i].1 <= spectrum@.len(),
    ensures
        bars@.len() == bar_ranges@.len(),
        forall|i: int| 0 <= i < bars@.len()
            ==> #[trigger] bars@[i] == log_max_value(slice_of(spectrum@, bar_ranges@[i])),
        forall|i: int| 0 <= i < bars@.len() ==> #[trigger] bars@[i] <= 64 * SCALE,
{
    let mut bars: Vec<u64> = Vec::new();
    let mut i: usize = 0;
    while i < bar_ranges.len()
        invariant
            bounded_values(spectrum@),
            forall|k: int| 0 <= k < bar_ranges@.len()
                ==> (#[trigger] bar_ranges@[k]).0 < bar_ranges@[k].1 <= spectrum@.len(),
            i <= bar_ranges@.len(),
            bars@.len() == i,
            forall|k: int| 0 <= k < i as int
                ==> #[trigger] bars@[k] == log_max_value(slice_of(spectrum@, bar_ranges@[k])),
            forall|k: int| 0 <= k < i as int ==> #[trigger] bars@[k] <= 64 * SCALE,
        decreases bar_ranges@.len() - i,
    {
        let (start, end) = bar_ranges[i];
        let ghost whole = slice_of(spectrum@, bar_ranges@[i as int]);
        let mut largest: u64 = 0;
        let mut j: usize = start;
        while j < end
            invariant
                bounded_values(spectrum@),
                start <= j <= end <= spectrum@.len(),
                largest as int == seq_max(spectrum@.subrange(start as int, j as int)),
                largest <= MAX_MAGNITUDE,
            decreases end - j,
        {
            proof {
                let pre = spectrum@.subrange(start as int, j as int);
                let post = spectrum@.subrange(start as int, j as int + 1);
                assert(post.drop_last() =~= pre);
                assert(post.last() == spectrum@[j as int]);
            }
            if spectrum[j] > largest {
                largest = spectrum[j];
            }
            j = j + 1;
        }
        proof {
            assert(spectrum@.subrange(start as int, end as int) =~= whole);
        }
        let value: u64 = lg2(largest + SCALE);
        bars.push(value);
        i = i + 1;
    }
    bars
}

/// Every range of the set covers at least one bin.
pub open spec fn ranges_nonempty(rs: Seq<(usize, usize)>) -> bool {
    forall|i: int| 0 <= i < rs.len() ==> (#[trigger] rs[i]).0 < rs[i].1
}

/// How the spectrum is partitioned into bars, and how each bar's bins
/// collapse to one scalar. A closed set of variants, selected at
/// construction time.
pub enum GroupingStrategy {
    /// Identity: the spectrum itself is the bar set.
    NoGrouping,
    /// Six perceptual bands, log-spaced bars, Max reduction.
    LogMax,
    /// Six perceptual bands, log-spaced bars, Mean reduction.
    LogMean,
    /// Perceptually warped variable-width ranges, Mean reduction.
    /// `gamma` is in micro-units and must be positive.
    GammaCorrected { gamma: u64 },
}

impl GroupingStrategy {
    /// A valid configuration: gamma, where present, is positive.
    pub open spec fn wf(&self) -> bool {
        match *self {
            GroupingStrategy::GammaCorrected { gamma } => gamma >= 1,
            _ => true,
        }
    }

    /// Builds the range set for this strategy. Computed once per
    /// configuration and reused across frames.
    pub fn create_ranges(&self, num_bars: usize, sample_rate: usize, fft_size: usize)
        -> (r: Vec<(usize, usize)>)
        requires
            self.wf(),
            1 <= num_bars <= 65536,
            1 <= sample_rate <= 1000000,
            2 <= fft_size <= 0x1000000,
        ensures
            ranges_wf(r@),
            *self is NoGrouping ==> r@.len() == 0,
            *self is LogMax || *self is LogMean ==> r@.len() == num_bars,
            match *self {
                GroupingStrategy::GammaCorrected { gamma } =>
                    gamma_layout(r@, fft_size as int / 2, num_bars as int, gamma as int),
                _ => true,
            },
    {
        match self {
            GroupingStrategy::NoGrouping => Vec::new(),
            GroupingStrategy::LogMax => log_ranges(num_bars, sample_rate, fft_size),
            GroupingStrategy::LogMean => log_ranges(num_bars, sample_rate, fft_size),
            GroupingStrategy::GammaCorrected { gamma } => {
                gamma_corrected_ranges(num_bars, sample_rate, fft_size, *gamma)
            },
        }
    }

    /// True of the variants that reduce with the mean; LogMax reduces with
    /// the maximum and NoGrouping does not reduce at all.
    pub open spec fn reduces_by_mean(&self) -> bool {
        *self is LogMean || *self is GammaCorrected
    }

    /// Converts a spectrum into bars along `bar_ranges`.
    ///
    /// Succeeds if and only if every range covers at least one bin that the
    /// spectrum actually has: an empty range is a configuration fault, and a
    /// range past the end of the spectrum means the spectrum length changed
    /// without rebuilding the ranges.
    pub fn spectrum_to_bars(&self, spectrum: &Vec<u64>, bar_ranges: &Vec<(usize, usize)>)
        -> (r: Result<Vec<u64>, VizError>)
        requires
            bounded_values(spectrum@),
        ensures
            r is Ok ==> bounded_values(r->Ok_0@),
            *self is NoGrouping ==> r is Ok && r->Ok_0@ == spectrum@,
            !(*self is NoGrouping) ==> {
                if !ranges_nonempty(bar_ranges@) {
                    r == Err::<Vec<u64>, VizError>(VizError::EmptyRange)
                } else if !ranges_within(bar_ranges@, spectrum@.len() as int) {
                    r == Err::<Vec<u64>, VizError>(VizError::SpectrumMismatch)
                } else {
                    &&& r is Ok
                    &&& r->Ok_0@.len() == bar_ranges@.len()
                    &&& forall|i: int| 0 <= i < bar_ranges@.len()
                        ==> #[trigger] r->Ok_0@[i] == if self.reduces_by_mean() {
                            log_mean_value(slice_of(spectrum@, bar_ranges@[i]))
                        } else {
                            log_max_value(slice_of(spectrum@, bar_ranges@[i]))
                        }
                }
            },
    {
        match self {
            GroupingStrategy::NoGrouping => {
                let mut copy: Vec<u64> = Vec::new();
                let mut i: usize = 0;
                while i < spectrum.len()
                    invariant
                        i <= spectrum@.len(),
                        copy@ == spectrum@.subrange(0, i as int),
                    decreases spectrum@.len() - i,
                {
                    copy.push(spectrum[i]);
                    proof {
                        assert(copy@ =~= spectrum@.subrange(0, i + 1));
                    }
                    i = i + 1;
                }
                proof {
                    assert(copy@ =~= spectrum@);
                }
                Ok(copy)
            },
            GroupingStrategy::LogMax => reduce_ranges(spectrum, bar_ranges, false),
            GroupingStrategy::LogMean => reduce_ranges(spectrum, bar_ranges, true),
            GroupingStrategy::GammaCorrected { gamma: _ } => {
                reduce_ranges(spectrum, bar_ranges, true)
            },
        }
    }
}

/// Checks the range set against the spectrum, then reduces each range with
/// the mean or the maximum.
fn reduce_ranges(spectrum: &Vec<u64>, bar_ranges: &Vec<(usize, usize)>, use_mean: bool)
    -> (r: Result<Vec<u64>, VizError>)
    requires
        bounded_values(spectrum@),
    ensures
        r is Ok ==> bounded_values(r->Ok_0@),
        !ranges_nonempty(bar_ranges@) ==> r == Err::<Vec<u64>, VizError>(VizError::EmptyRange),
        ranges_nonempty(bar_ranges@) && !ranges_within(bar_ranges@, spectrum@.len() as int)
            ==> r == Err::<Vec<u64>, VizError>(VizError::SpectrumMismatch),
        ranges_nonempty(bar_ranges@) && ranges_within(bar_ranges@, spectrum@.len() as int) ==> {
            &&& r is Ok
            &&& r->Ok_0@.len() == bar_ranges@.len()
            &&& forall|i: int| 0 <= i < bar_ranges@.len()
                ==> #[trigger] r->Ok_0@[i] == if use_mean {
                    log_mean_value(slice_of(spectrum@, bar_ranges@[i]))
                } else {
                    log_max_value(slice_of(spectrum@, bar_ranges@[i]))
                }
        },
{
    let mut i: usize = 0;
    while i < bar_ranges.len()
        invariant
            i <= bar_ranges@.len(),
            forall|k: int| 0 <= k < i as int
                ==> (#[trigger] bar_ranges@[k]).0 < bar_ranges@[k].1,
        decreases bar_ranges@.len() - i,
    {
        let (s, e) = bar_ranges[i];
        if s >= e {
            return Err(VizError::EmptyRange);
        }
        i = i + 1;
    }
    let mut i: usize = 0;
    while i < bar_ranges.len()
        invariant
            i <= bar_ranges@.len(),
            ranges_nonempty(bar_ranges@),
            forall|k: int| 0 <= k < i as int
                ==> (#[trigger] bar_ranges@[k]).1 <= spectrum@.len(),
        decreases bar_ranges@.len() - i,
    {
        let (_, e) = bar_ranges[i];
        if e > spectrum.len() {
            return Err(VizError::SpectrumMismatch);
        }
        i = i + 1;
    }
    if use_mean {
        Ok(take_log_mean_ranges(spectrum, bar_ranges))
    } else {
        Ok(take_log_max_ranges(spectrum, bar_ranges))
    }
}

/// How the computed bars are laid out on screen.
pub enum Bars {
    Normal { num_bars: usize },
    LeftMirrored { num_bars: usize },
    RightMirrored { num_bars: usize },
}

impl Bars {
    /// The number of bars this layout displays.
    pub fn num_bars(&self) -> (n: usize)
        ensures
            n == match *self {
                Bars::Normal { num_bars } => num_bars,
                Bars::LeftMirrored { num_bars } => num_bars,
                Bars::RightMirrored { num_bars } => num_bars,
            },
    {
        match self {
            Bars::Normal { num_bars }
            | Bars::LeftMirrored { num_bars }
            | Bars::RightMirrored { num_bars } => *num_bars,
        }
    }
}

} // verus!
