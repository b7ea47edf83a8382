//! Pitch-domain analysis: folding a spectrum into MIDI pitches and pitch
//! classes, harmonic product sharpening, and top-value selection.

use vstd::prelude::*;
use vstd::arithmetic::div_mod::{
    lemma_fundamental_div_mod, lemma_mod_bound,
};
use vstd::arithmetic::mul::{lemma_mul_inequality, lemma_mul_upper_bound};
use vstd::string::StringExecFns;
use crate::fixed::{lg2, mul_scaled, spec_lg2, spec_mul_scaled};
use crate::{bounded_values, seq_sum, MAX_MAGNITUDE, SCALE};

verus! {

/// A straight copy of an intensity vector.
pub(crate) fn copy_intensities(v: &Vec<u64>) -> (out: Vec<u64>)
    ensures
        out@ == v@,
{
    let mut out: Vec<u64> = Vec::new();
    let mut i: usize = 0;
    while i < v.len()
        invariant
            i <= v@.len(),
            out@ == v@.subrange(0, i as int),
        decreases v@.len() - i,
    {
        out.push(v[i]);
        proof {
            assert(out@ =~= v@.subrange(0, i + 1));
        }
        i = i + 1;
    }
    proof {
        assert(out@ =~= v@);
    }
    out
}

/// The energy of pitch class `c` summed over the first `n` pitches: the sum
/// of `pitches[p]` for `p < n` with `p % 12 == c`.
pub open spec fn chroma_sum(pitches: Seq<u64>, c: int, n: int) -> int
    decreases n,
{
    if n <= 0 {
        0
    } else if (n - 1) % 12 == c {
        chroma_sum(pitches, c, n - 1) + pitches[n - 1]
    } else {
        chroma_sum(pitches, c, n - 1)
    }
}

pub proof fn lemma_chroma_sum_bound(pitches: Seq<u64>, c: int, n: int)
    requires
        bounded_values(pitches),
        0 <= n <= pitches.len(),
    ensures
        0 <= chroma_sum(pitches, c, n) <= n * MAX_MAGNITUDE,
    decreases n,
{
    if n > 0 {
        lemma_chroma_sum_bound(pitches, c, n - 1);
        assert((n - 1) * MAX_MAGNITUDE + MAX_MAGNITUDE == n * MAX_MAGNITUDE)
            by (nonlinear_arith);
    }
}

/// A single pitch class's total never exceeds the whole sequence's sum.
pub proof fn lemma_chroma_sum_le_seq_sum(ps: Seq<u64>, c: int, m: int)
    requires
        0 <= m <= ps.len(),
    ensures
        0 <= chroma_sum(ps, c, m) <= seq_sum(ps.subrange(0, m)),
    decreases m,
{
    if m > 0 {
        lemma_chroma_sum_le_seq_sum(ps, c, m - 1);
        assert(ps.subrange(0, m).drop_last() =~= ps.subrange(0, m - 1));
        assert(ps.subrange(0, m).last() == ps[m - 1]);
    }
}

/// Folds a 128-pitch spectrum into the twelve pitch classes by summing
/// `pitches[p]` into class `p % 12`.
pub fn pitch_spectrum_to_chromagram(pitches: &Vec<u64>) -> (chroma: Vec<u64>)
    requires
        bounded_values(pitches@),
        pitches@.len() == 128,
    ensures
        chroma@.len() == 12,
        forall|c: int| 0 <= c < 12 ==> #[trigger] chroma@[c] == chroma_sum(pitches@, c, 128),
{
    let mut chroma: Vec<u64> = Vec::new();
    let mut z: usize = 0;
    while z < 12
        invariant
            z <= 12,
            chroma@.len() == z,
            forall|c: int| 0 <= c < z as int ==> #[trigger] chroma@[c] == 0,
        decreases 12 - z,
    {
        chroma.push(0);
        z = z + 1;
    }
    let mut p: usize = 0;
    while p < 128
        invariant
            p <= 128,
            chroma@.len() == 12,
            bounded_values(pitches@),
            pitches@.len() == 128,
            forall|c: int| 0 <= c < 12
                ==> #[trigger] chroma@[c] == chroma_sum(pitches@, c, p as int),
        decreases 128 - p,
    {
        let idx: usize = p % 12;
        proof {
            lemma_chroma_sum_bound(pitches@, idx as int, p as int);
            assert(128 * MAX_MAGNITUDE + MAX_MAGNITUDE <= u64::MAX) by (nonlinear_arith);
        }
        let updated: u64 = chroma[idx] + pitches[p];
        chroma.set(idx, updated);
        p = p + 1;
    }
    chroma
}

/// Scales a chromagram so its entries sum to one (in micro-units), forming a
/// probability-like distribution; an all-zero chromagram stays all zero
/// rather than dividing by zero.
pub fn normalise_chromagram(chroma: &Vec<u64>) -> (out: Vec<u64>)
    requires
        bounded_values(chroma@),
        chroma@.len() == 12,
    ensures
        out@.len() == 12,
        seq_sum(chroma@) == 0 ==> forall|i: int| 0 <= i < 12 ==> #[trigger] out@[i] == 0,
        seq_sum(chroma@) > 0 ==> forall|i: int| 0 <= i < 12
            ==> #[trigger] out@[i] == chroma@[i] * SCALE / seq_sum(chroma@),
{
    let mut total: u64 = 0;
    let mut i: usize = 0;
    while i < 12
        invariant
            i <= 12,
            chroma@.len() == 12,
            bounded_values(chroma@),
            total as int == seq_sum(chroma@.subrange(0, i as int)),
            total <= i * MAX_MAGNITUDE,
        decreases 12 - i,
    {
        proof {
            let pre = chroma@.subrange(0, i as int);
            let post = chroma@.subrange(0, i as int + 1);
            assert(post.drop_last() =~= pre);
            assert(post.last() == chroma@[i as int]);
            assert(i as int * MAX_MAGNITUDE + MAX_MAGNITUDE
                == (i + 1) as int * MAX_MAGNITUDE) by (nonlinear_arith);
        }
        total = total + chroma[i];
        i = i + 1;
    }
    proof {
        assert(chroma@.subrange(0, 12) =~= chroma@);
    }
    let mut out: Vec<u64> = Vec::new();
    if total == 0 {
        let mut z: usize = 0;
        while z < 12
            invariant
                z <= 12,
                out@.len() == z,
                forall|c: int| 0 <= c < z as int ==> #[trigger] out@[c] == 0,
            decreases 12 - z,
        {
            out.push(0);
            z = z + 1;
        }
        return out;
    }
    let mut i: usize = 0;
    while i < 12
        invariant
            i <= 12,
            chroma@.len() == 12,
            bounded_values(chroma@),
            total as int == seq_sum(chroma@),
            total > 0,
            out@.len() == i,
            forall|c: int| 0 <= c < i as int
                ==> #[trigger] out@[c] == chroma@[c] * SCALE / seq_sum(chroma@),
        decreases 12 - i,
    {
        proof {
            lemma_mul_upper_bound(
                chroma@[i as int] as int, MAX_MAGNITUDE as int, SCALE as int, SCALE as int);
        }
        out.push(chroma[i] * SCALE / total);
        i = i + 1;
    }
    out
}

/// The iterated harmonic product for fundamental candidate `i`:
/// `s[i] * s[2i] * ... * s[k*i]` as saturating fixed-point products.
pub open spec fn hps_product(s: Seq<u64>, i: int, k: int) -> u64
    recommends
        0 <= i < s.len(),
        1 <= k,
    decreases k,
{
    if k <= 1 {
        s[i]
    } else {
        spec_mul_scaled(hps_product(s, i, k - 1), s[k * i])
    }
}

/// Sharpens a fundamental-frequency estimate: entry `i` of the output is the
/// product of the spectrum at all harmonic multiples `i, 2i, ..., D*i`.
/// A downsample factor of one or less is the identity. Entry 0 is the
/// product rule applied literally, so it multiplies `s[0]` by itself.
pub fn frequency_to_harmonic_product_spectrum(frequencies: &Vec<u64>, downsamples: usize)
    -> (out: Vec<u64>)
    ensures
        downsamples <= 1 ==> out@ == frequencies@,
        downsamples > 1 ==> {
            &&& out@.len() == frequencies@.len() as int / downsamples as int
            &&& forall|i: int| 0 <= i < out@.len()
                ==> #[trigger] out@[i] == hps_product(frequencies@, i, downsamples as int)
        },
{
    if downsamples <= 1 {
        return copy_intensities(frequencies);
    }
    let flen: usize = frequencies.len();
    let out_len: usize = flen / downsamples;
    let mut out: Vec<u64> = Vec::new();
    let mut i: usize = 0;
    while i < out_len
        invariant
            i <= out_len,
            flen == frequencies@.len(),
            out_len == frequencies@.len() as int / downsamples as int,
            downsamples >= 2,
            out@.len() == i,
            forall|k: int| 0 <= k < i as int
                ==> #[trigger] out@[k] == hps_product(frequencies@, k, downsamples as int),
        decreases out_len - i,
    {
        let mut cur: u64 = frequencies[i];
        let mut j: usize = 1;
        while j < downsamples
            invariant
                1 <= j <= downsamples,
                downsamples >= 2,
                i < out_len,
                flen == frequencies@.len(),
                out_len == frequencies@.len() as int / downsamples as int,
                cur == hps_product(frequencies@, i as int, j as int),
            decreases downsamples - j,
        {
            proof {
                lemma_fundamental_div_mod(frequencies@.len() as int, downsamples as int);
                lemma_mod_bound(frequencies@.len() as int, downsamples as int);
                lemma_mul_inequality(j as int + 1, downsamples as int, i as int);
                lemma_mul_inequality(i as int + 1, out_len as int, downsamples as int);
                assert(downsamples as int * out_len as int
                    == out_len as int * downsamples as int) by (nonlinear_arith);
                assert((i as int + 1) * downsamples as int
                    == i as int * downsamples as int + downsamples as int) by (nonlinear_arith);
                assert((j as int + 1) * (i as int) == (i as int) * (j as int + 1))
                    by (nonlinear_arith);
                assert(downsamples as int * i as int == i as int * downsamples as int)
                    by (nonlinear_arith);
                assert(i as int * downsamples as int
                    <= out_len as int * downsamples as int - downsamples as int);
                assert(downsamples as int * out_len as int <= frequencies@.len() as int);
                assert((j as int + 1) * (i as int) < frequencies@.len() as int);
            }
            cur = mul_scaled(cur, frequencies[(j + 1) * i]);
            j = j + 1;
        }
        out.push(cur);
        i = i + 1;
    }
    out
}

/// Lowest MIDI pitch kept by the pitch spectrum (E2): sub-bass rumble and
/// percussive noise below it are excluded from melodic analysis.
pub const MIN_PITCH: u64 = 40;

/// Highest MIDI pitch kept by the pitch spectrum (C6).
pub const MAX_PITCH: u64 = 84;

/// The frequency of spectrum bin `b` in micro-Hz: `b * (sr/2) / len`.
pub open spec fn spec_bin_freq(b: int, sr: int, len: int) -> int {
    b * sr * (SCALE as int) / (2 * len)
}

/// The MIDI pitch that bin `b` is rounded to, or -1 when the bin falls
/// outside the configured pitch window. The pitch estimate is
/// `69 + 12*log2(freq/440)`, rounded half-up.
pub open spec fn spec_bin_pitch(b: int, sr: int, len: int) -> int {
    let f = spec_bin_freq(b, sr, len);
    if f < SCALE {
        -1
    } else {
        let t = 12 * spec_lg2(f as u64) + 69 * (SCALE as int);
        let base = 12 * spec_lg2((440 * SCALE) as u64);
        if t + SCALE / 2 < base {
            -1
        } else {
            let q = (t + SCALE / 2 - base) / (SCALE as int);
            if MIN_PITCH <= q <= MAX_PITCH {
                q
            } else {
                -1
            }
        }
    }
}

/// The energy of pitch `p` summed over the first `n` bins.
pub open spec fn pitch_slot_sum(freqs: Seq<u64>, sr: int, p: int, n: int) -> int
    decreases n,
{
    if n <= 0 {
        0
    } else if spec_bin_pitch(n - 1, sr, freqs.len() as int) == p {
        pitch_slot_sum(freqs, sr, p, n - 1) + freqs[n - 1]
    } else {
        pitch_slot_sum(freqs, sr, p, n - 1)
    }
}

proof fn lemma_pitch_slot_bound(freqs: Seq<u64>, sr: int, p: int, n: int)
    requires
        bounded_values(freqs),
        0 <= n <= freqs.len(),
    ensures
        0 <= pitch_slot_sum(freqs, sr, p, n) <= n * MAX_MAGNITUDE,
    decreases n,
{
    if n > 0 {
        lemma_pitch_slot_bound(freqs, sr, p, n - 1);
        assert((n - 1) * MAX_MAGNITUDE + MAX_MAGNITUDE == n * MAX_MAGNITUDE)
            by (nonlinear_arith);
    }
}

/// No pitch slot can hold more energy than the whole spectrum prefix.
pub proof fn lemma_pitch_slot_le_sum(s: Seq<u64>, sr: int, p: int, n: int)
    requires
        0 <= n <= s.len(),
    ensures
        0 <= pitch_slot_sum(s, sr, p, n) <= seq_sum(s.subrange(0, n)),
    decreases n,
{
    if n > 0 {
        lemma_pitch_slot_le_sum(s, sr, p, n - 1);
        assert(s.subrange(0, n).drop_last() =~= s.subrange(0, n - 1));
        assert(s.subrange(0, n).last() == s[n - 1]);
    }
}

/// The energy of all pitch slots below `pc`, over the first `n` bins.
pub open spec fn slots_sum_upto(s: Seq<u64>, sr: int, n: int, pc: int) -> int
    decreases pc,
{
    if pc <= 0 {
        0
    } else {
        slots_sum_upto(s, sr, n, pc - 1) + pitch_slot_sum(s, sr, pc - 1, n)
    }
}

proof fn lemma_slots_zero(s: Seq<u64>, sr: int, pc: int)
    requires
        0 <= pc,
    ensures
        slots_sum_upto(s, sr, 0, pc) == 0,
    decreases pc,
{
    if pc > 0 {
        lemma_slots_zero(s, sr, pc - 1);
    }
}

/// Adding one bin adds its energy to the joint slot total exactly once when
/// its pitch lies below `pc`, and not at all otherwise: every bin lands in
/// at most one slot.
proof fn lemma_slots_unfold(s: Seq<u64>, sr: int, n: int, pc: int)
    requires
        1 <= n <= s.len(),
        0 <= pc,
    ensures
        slots_sum_upto(s, sr, n, pc) == slots_sum_upto(s, sr, n - 1, pc)
            + if 0 <= spec_bin_pitch(n - 1, sr, s.len() as int) < pc {
                s[n - 1] as int
            } else {
                0
            },
    decreases pc,
{
    if pc > 0 {
        lemma_slots_unfold(s, sr, n, pc - 1);
    }
}

/// The pitch slots jointly never exceed the spectrum's total energy.
pub proof fn lemma_slots_le_sum(s: Seq<u64>, sr: int, n: int)
    requires
        0 <= n <= s.len(),
    ensures
        0 <= slots_sum_upto(s, sr, n, 128) <= seq_sum(s.subrange(0, n)),
    decreases n,
{
    if n == 0 {
        lemma_slots_zero(s, sr, 128);
    } else {
        lemma_slots_le_sum(s, sr, n - 1);
        lemma_slots_unfold(s, sr, n, 128);
        assert(s.subrange(0, n).drop_last() =~= s.subrange(0, n - 1));
        assert(s.subrange(0, n).last() == s[n - 1]);
    }
}

/// Folds a uniform-frequency spectrum into a 128-entry MIDI pitch spectrum:
/// each bin's energy is added to the pitch its frequency rounds to, and
/// pitches outside `[MIN_PITCH, MAX_PITCH]` are left at zero. Bins below
/// 1 Hz (far below the lowest kept pitch) are skipped, since zero frequency
/// has no logarithm.
pub fn frequency_to_pitch_spectrum(frequencies: &Vec<u64>, sampling_rate: usize)
    -> (out: Vec<u64>)
    requires
        bounded_values(frequencies@),
        1 <= frequencies@.len() <= 0x80000,
        2 <= sampling_rate <= 1000000,
    ensures
        out@.len() == 128,
        forall|p: int| 0 <= p < 128 ==> #[trigger] out@[p]
            == pitch_slot_sum(frequencies@, sampling_rate as int, p, frequencies@.len() as int),
{
    let len: usize = frequencies.len();
    let mut out: Vec<u64> = Vec::new();
    let mut z: usize = 0;
    while z < 128
        invariant
            z <= 128,
            out@.len() == z,
            forall|c: int| 0 <= c < z as int ==> #[trigger] out@[c] == 0,
        decreases 128 - z,
    {
        out.push(0);
        z = z + 1;
    }
    let base: u64 = 12 * lg2(440 * SCALE);
    let mut b: usize = 0;
    while b < len
        invariant
            b <= len,
            len == frequencies@.len(),
            1 <= len <= 0x80000,
            2 <= sampling_rate <= 1000000,
            bounded_values(frequencies@),
            base == 12 * spec_lg2((440 * SCALE) as u64),
            out@.len() == 128,
            forall|p: int| 0 <= p < 128 ==> #[trigger] out@[p]
                == pitch_slot_sum(frequencies@, sampling_rate as int, p, b as int),
        decreases len - b,
    {
        proof {
            lemma_mul_upper_bound(b as int, 0x80000, sampling_rate as int, 1000000);
            lemma_mul_upper_bound(
                b as int * sampling_rate as int, 0x80000 * 1000000int, SCALE as int, SCALE as int);
        }
        let f: u64 = (b as u64) * (sampling_rate as u64) * SCALE / (2 * len as u64);
        let ghost pitch = spec_bin_pitch(b as int, sampling_rate as int, len as int);
        if f >= SCALE {
            let t: u64 = 12 * lg2(f) + 69 * SCALE;
            if t + SCALE / 2 >= base {
                let q: u64 = (t + SCALE / 2 - base) / SCALE;
                if MIN_PITCH <= q && q <= MAX_PITCH {
                    proof {
                        assert(pitch == q);
                        lemma_pitch_slot_bound(
                            frequencies@, sampling_rate as int, q as int, b as int);
                        assert(0x80000 * MAX_MAGNITUDE + MAX_MAGNITUDE <= u64::MAX)
                            by (nonlinear_arith);
                        assert(b as int * MAX_MAGNITUDE <= 0x80000 * MAX_MAGNITUDE)
                            by (nonlinear_arith)
                            requires b as int <= 0x80000;
                    }
                    let slot: usize = q as usize;
                    let updated: u64 = out[slot] + frequencies[b];
                    out.set(slot, updated);
                }
            }
        }
        b = b + 1;
    }
    out
}

/// The value standing at a selected index: a real index selects its item,
/// the sentinel `items.len()` stands for zero.
pub open spec fn sel_value(items: Seq<u64>, idx: int) -> int {
    if 0 <= idx < items.len() {
        items[idx] as int
    } else {
        0
    }
}

/// `j` occurs among the first `upto` entries of `r`.
pub open spec fn in_prefix(r: Seq<usize>, upto: int, j: int) -> bool {
    exists|k: int| 0 <= k < upto && r[k] == j
}

/// Whether `r` holds `j`.
fn contains_index(r: &Vec<usize>, j: usize) -> (b: bool)
    ensures
        b == in_prefix(r@, r@.len() as int, j as int),
{
    let mut k: usize = 0;
    while k < r.len()
        invariant
            k <= r@.len(),
            forall|t: int| 0 <= t < k as int ==> r@[t] != j,
        decreases r@.len() - k,
    {
        if r[k] == j {
            return true;
        }
        k = k + 1;
    }
    false
}

/// The result of a top-value selection: selected values are non-increasing
/// across the slots; a real (non-sentinel) index always carries a strictly
/// positive value, so exhausted slots are forced to the sentinel; no real
/// index repeats; equal selected values come in increasing index order;
/// each real index is the earliest one not already selected that reaches
/// its value; and any item larger than a slot's value is already held by an
/// earlier slot.
pub open spec fn top_selection(items: Seq<u64>, r: Seq<usize>) -> bool {
    &&& forall|k: int| 0 <= k < r.len() ==> #[trigger] r[k] <= items.len()
    &&& forall|k: int| 0 <= k < r.len() && #[trigger] r[k] < items.len()
        ==> items[r[k] as int] > 0
    &&& forall|k1: int, k2: int| 0 <= k1 < k2 < r.len()
        ==> sel_value(items, #[trigger] r[k1] as int) >= sel_value(items, #[trigger] r[k2] as int)
    &&& forall|k1: int, k2: int| 0 <= k1 < k2 < r.len() && r[k1] < items.len()
        ==> #[trigger] r[k1] != #[trigger] r[k2]
    &&& forall|k1: int, k2: int| #![trigger r[k1], r[k2]] 0 <= k1 < k2 < r.len()
        && r[k1] < items.len() && r[k2] < items.len()
        && items[r[k1] as int] == items[r[k2] as int]
        ==> r[k1] < r[k2]
    &&& forall|k: int, j: int| #![trigger r[k], items[j]] 0 <= k < r.len()
        && r[k] < items.len() && 0 <= j < r[k] && !in_prefix(r, k, j)
        ==> items[j] < items[r[k] as int]
    &&& forall|k: int, j: int| #![trigger r[k], items[j]] 0 <= k < r.len()
        && 0 <= j < items.len() && items[j] > sel_value(items, r[k] as int)
        ==> in_prefix(r, k, j)
}

/// Indices of the `n` largest values of `items`, values non-increasing
/// across the result. Only strictly positive values are selected; a slot
/// for which no positive value remains holds the sentinel `items.len()`.
/// Among equal values the earliest index wins, so equal selected values
/// come back in increasing index order.
pub fn get_n_largest_indices(items: &Vec<u64>, n: usize) -> (r: Vec<usize>)
    ensures
        r@.len() == n,
        top_selection(items@, r@),
{
    let len: usize = items.len();
    let mut r: Vec<usize> = Vec::new();
    let mut k: usize = 0;
    while k < n
        invariant
            k <= n,
            len == items@.len(),
            r@.len() == k,
            forall|t: int| 0 <= t < k as int ==> #[trigger] r@[t] <= items@.len(),
            forall|t: int| 0 <= t < k as int && #[trigger] r@[t] < items@.len()
                ==> items@[r@[t] as int] > 0,
            forall|k1: int, k2: int| 0 <= k1 < k2 < k as int
                ==> sel_value(items@, #[trigger] r@[k1] as int)
                    >= sel_value(items@, #[trigger] r@[k2] as int),
            forall|k1: int, k2: int| 0 <= k1 < k2 < k as int
                && r@[k1] < items@.len() ==> #[trigger] r@[k1] != #[trigger] r@[k2],
            forall|k1: int, k2: int| #![trigger r@[k1], r@[k2]] 0 <= k1 < k2 < k as int
                && r@[k1] < items@.len() && r@[k2] < items@.len()
                && items@[r@[k1] as int] == items@[r@[k2] as int]
                ==> r@[k1] < r@[k2],
            forall|t: int, j: int| #![trigger r@[t], items@[j]] 0 <= t < k as int
                && r@[t] < items@.len() && 0 <= j < r@[t] && !in_prefix(r@, t, j)
                ==> items@[j] < items@[r@[t] as int],
            forall|t: int, j: int| #![trigger r@[t], items@[j]] 0 <= t < k as int
                && 0 <= j < items@.len() && items@[j] > sel_value(items@, r@[t] as int)
                ==> in_prefix(r@, t, j),
        decreases n - k,
    {
        let mut best: usize = len;
        let mut bestv: u64 = 0;
        let mut j: usize = 0;
        while j < len
            invariant
                j <= len,
                len == items@.len(),
                r@.len() == k,
                best == len || (best < j && items@[best as int] == bestv
                    && !in_prefix(r@, k as int, best as int)),
                best == len ==> bestv == 0,
                best < len ==> bestv > 0,
                forall|t: int| 0 <= t < j as int
                    ==> in_prefix(r@, k as int, t) || items@[t] <= bestv,
                forall|t: int| best < len && 0 <= t < best as int
                    ==> in_prefix(r@, k as int, t) || items@[t] < bestv,
            decreases len - j,
        {
            if items[j] > bestv {
                if !contains_index(&r, j) {
                    best = j;
                    bestv = items[j];
                }
            }
            j = j + 1;
        }
        proof {
            // The new slot's value does not exceed the previous slot's: a
            // larger unchosen value would contradict the previous slot's
            // completeness.
            if k > 0 && sel_value(items@, best as int)
                > sel_value(items@, r@[k as int - 1] as int) {
                assert(best < len);
                assert(items@[best as int] > sel_value(items@, r@[k as int - 1] as int));
                assert(in_prefix(r@, k as int - 1, best as int));
                let w = choose|w: int| 0 <= w < k as int - 1 && r@[w] == best as int;
                assert(in_prefix(r@, k as int, best as int));
                assert(false);
            }
        }
        let ghost rpre = r@;
        r.push(best);
        proof {
            assert(r@ == rpre.push(best));
            assert forall|t: int, j2: int| #![trigger r@[t], items@[j2]]
                0 <= t < (k + 1) as int && 0 <= j2 < items@.len()
                && items@[j2] > sel_value(items@, r@[t] as int)
                implies in_prefix(r@, t, j2) by {
                if t < k as int {
                    assert(r@[t] == rpre[t]);
                    assert(items@[j2] > sel_value(items@, rpre[t] as int));
                    assert(in_prefix(rpre, t, j2));
                    let w = choose|w: int| 0 <= w < t && rpre[w] == j2;
                    assert(r@[w] == j2);
                } else {
                    assert(r@[t] == best);
                    assert(in_prefix(rpre, k as int, j2) || items@[j2] <= bestv);
                    if in_prefix(rpre, k as int, j2) {
                        let w = choose|w: int| 0 <= w < k as int && rpre[w] == j2;
                        assert(r@[w] == j2);
                    }
                }
            }
            assert forall|k1: int, k2: int| 0 <= k1 < k2 < (k + 1) as int
                implies sel_value(items@, #[trigger] r@[k1] as int)
                    >= sel_value(items@, #[trigger] r@[k2] as int) by {
                assert(r@[k1] == rpre[k1]);
                if k2 == k as int {
                    if k1 < k as int - 1 {
                        assert(sel_value(items@, rpre[k1] as int)
                            >= sel_value(items@, rpre[k as int - 1] as int));
                    }
                } else {
                    assert(r@[k2] == rpre[k2]);
                }
            }
            // Each real index selected so far carries a strictly positive
            // value.
            assert forall|t: int| 0 <= t < (k + 1) as int && #[trigger] r@[t] < items@.len()
                implies items@[r@[t] as int] > 0 by {
                if t < k as int {
                    assert(r@[t] == rpre[t]);
                    assert(rpre[t] < items@.len());
                } else {
                    assert(r@[t] == best);
                }
            }
            // Each real index is the earliest unselected index reaching its
            // value.
            assert forall|t: int, j2: int| #![trigger r@[t], items@[j2]]
                0 <= t < (k + 1) as int && r@[t] < items@.len() && 0 <= j2 < r@[t]
                && !in_prefix(r@, t, j2)
                implies items@[j2] < items@[r@[t] as int] by {
                if t < k as int {
                    assert(r@[t] == rpre[t]);
                    if in_prefix(rpre, t, j2) {
                        let w = choose|w: int| 0 <= w < t && rpre[w] == j2;
                        assert(r@[w] == j2);
                        assert(in_prefix(r@, t, j2));
                    }
                    assert(!in_prefix(rpre, t, j2));
                    assert(items@[j2] < items@[rpre[t] as int]);
                } else {
                    assert(r@[t] == best);
                    assert(in_prefix(rpre, k as int, j2) || items@[j2] < bestv);
                    if in_prefix(rpre, k as int, j2) {
                        let w = choose|w: int| 0 <= w < k as int && rpre[w] == j2;
                        assert(r@[w] == j2);
                        assert(in_prefix(r@, t, j2));
                    }
                }
            }
            // Equal selected values come in increasing index order: were the
            // new index the smaller of an equal pair, the earlier slot's
            // earliest-index law would be violated.
            assert forall|k1: int, k2: int| #![trigger r@[k1], r@[k2]]
                0 <= k1 < k2 < (k + 1) as int
                && r@[k1] < items@.len() && r@[k2] < items@.len()
                && items@[r@[k1] as int] == items@[r@[k2] as int]
                implies r@[k1] < r@[k2] by {
                assert(r@[k1] == rpre[k1]);
                if k2 == k as int {
                    assert(r@[k2] == best);
                    assert(!in_prefix(rpre, k as int, best as int));
                    if best as int == rpre[k1] as int {
                        assert(0 <= k1 < k as int && rpre[k1] == best as int);
                        assert(in_prefix(rpre, k as int, best as int));
                        assert(false);
                    }
                    if (best as int) < rpre[k1] as int {
                        if in_prefix(rpre, k1, best as int) {
                            let w = choose|w: int| 0 <= w < k1 && rpre[w] == best as int;
                            assert(0 <= w < k as int && rpre[w] == best as int);
                            assert(in_prefix(rpre, k as int, best as int));
                            assert(false);
                        }
                        assert(items@[best as int] < items@[rpre[k1] as int]);
                        assert(false);
                    }
                } else {
                    assert(r@[k2] == rpre[k2]);
                }
            }
        }
        k = k + 1;
    }
    r
}

/// The first bin at or above roughly 80 Hz: `ceil(80 / freq_per_bin)`.
pub open spec fn spec_rumble_cutoff(sr: int, fft: int) -> int {
    (80 * fft + sr - 1) / sr
}

/// `m` is the first maximal bin at or past the cutoff.
pub open spec fn dominant_pick(s: Seq<u64>, cut: int, m: int) -> bool {
    &&& cut <= m < s.len()
    &&& forall|j: int| cut <= j < s.len() ==> s[j] <= s[m]
    &&& forall|j: int| cut <= j < m ==> s[j] < s[m]
}

/// Extracts the dominant frequency from a (typically harmonic-product)
/// spectrum, in micro-Hz: bins below about 80 Hz are skipped to avoid DC
/// and rumble bias, the first maximal remaining bin is selected, and its
/// index is converted back to frequency via the bin spacing. A spectrum
/// with no bin past the cutoff yields zero.
pub fn dominant_frequency(spectrum: &Vec<u64>, sample_rate: usize, fft_size: usize) -> (f: u64)
    requires
        2 <= sample_rate <= 1000000,
        2 <= fft_size <= 0x1000000,
        spectrum@.len() <= fft_size,
    ensures
        spectrum@.len() <= spec_rumble_cutoff(sample_rate as int, fft_size as int) ==> f == 0,
        spectrum@.len() > spec_rumble_cutoff(sample_rate as int, fft_size as int)
            ==> exists|m: int| dominant_pick(
                    spectrum@, spec_rumble_cutoff(sample_rate as int, fft_size as int), m)
                && f == m * sample_rate as int * SCALE / (fft_size as int),
{
    let len: usize = spectrum.len();
    let cut64: u64 = (80 * fft_size as u64 + sample_rate as u64 - 1) / (sample_rate as u64);
    if cut64 >= len as u64 {
        return 0;
    }
    let cut: usize = cut64 as usize;
    let mut m: usize = cut;
    let mut mv: u64 = spectrum[cut];
    let mut j: usize = cut + 1;
    while j < len
        invariant
            cut < len == spectrum@.len(),
            cut <= m < j <= len,
            mv == spectrum@[m as int],
            forall|t: int| cut <= t < j as int ==> spectrum@[t] <= mv,
            forall|t: int| cut <= t < m as int ==> spectrum@[t] < mv,
        decreases len - j,
    {
        if spectrum[j] > mv {
            m = j;
            mv = spectrum[j];
        }
        j = j + 1;
    }
    proof {
        assert(dominant_pick(spectrum@, cut as int, m as int));
        lemma_mul_upper_bound(m as int, 0x1000000, sample_rate as int, 1000000);
        lemma_mul_upper_bound(
            m as int * sample_rate as int, 0x1000000 * 1000000int, SCALE as int, SCALE as int);
    }
    (m as u64) * (sample_rate as u64) * SCALE / (fft_size as u64)
}

/// The name of pitch class `i`.
pub open spec fn spec_note_name(i: int) -> Seq<char> {
    if i == 0 { "C"@ }
    else if i == 1 { "C#/Db"@ }
    else if i == 2 { "D"@ }
    else if i == 3 { "D#/Eb"@ }
    else if i == 4 { "E"@ }
    else if i == 5 { "F"@ }
    else if i == 6 { "F#/Gb"@ }
    else if i == 7 { "G"@ }
    else if i == 8 { "G#/Ab"@ }
    else if i == 9 { "A"@ }
    else if i == 10 { "A#/Bb"@ }
    else if i == 11 { "B"@ }
    else { "UNK"@ }
}

/// The Western note name of a chroma index; indices past 11 (such as the
/// sentinel of `get_n_largest_indices`) name an unknown pitch class.
pub fn chroma_index_to_note(index: usize) -> (r: String)
    ensures
        r@ == spec_note_name(index as int),
{
    match index {
        0 => String::from_str("C"),
        1 => String::from_str("C#/Db"),
        2 => String::from_str("D"),
        3 => String::from_str("D#/Eb"),
        4 => String::from_str("E"),
        5 => String::from_str("F"),
        6 => String::from_str("F#/Gb"),
        7 => String::from_str("G"),
        8 => String::from_str("G#/Ab"),
        9 => String::from_str("A"),
        10 => String::from_str("A#/Bb"),
        11 => String::from_str("B"),
        _ => String::from_str("UNK"),
    }
}

} // verus!
