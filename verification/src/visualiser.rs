//! The orchestrator: wires grouping, smoothing, normalization and colour
//! into one per-frame update over persistent state.

use vstd::prelude::*;
use vstd::arithmetic::div_mod::{lemma_div_by_multiple, lemma_div_is_ordered};
use vstd::arithmetic::mul::{lemma_mul_inequality, lemma_mul_upper_bound};
use crate::bars::{
    log_max_value, log_mean_value, ranges_nonempty, ranges_wf, ranges_within, slice_of,
    GroupingStrategy,
};
use crate::colour::{
    chroma_colour_exact, colour_result, colour_state_stepped, degenerate_hue_red,
    frame_chroma, lemma_frame_chroma_le_energy, pitch_seq, ColourMapper, Rgba, StaticColour,
};
use crate::errors::VizError;
use crate::smoothing::{smooth_one, SmoothingStrategy};
use crate::spectra::{
    copy_intensities, frequency_to_pitch_spectrum, get_n_largest_indices,
    lemma_pitch_slot_le_sum, pitch_slot_sum, pitch_spectrum_to_chromagram, top_selection,
};
use crate::{
    bounded_values, lemma_seq_max_ge_element, lemma_seq_sum_bounds, seq_max, seq_sum,
    MAX_MAGNITUDE, SCALE,
};

verus! {

/// The bars scaled so the largest bar of the frame reaches one, with the
/// divisor floored at one micro-unit.
pub open spec fn spec_normalised(s: Seq<u64>) -> Seq<u64> {
    Seq::new(
        s.len(),
        |i: int| (s[i] * SCALE / (if seq_max(s) >= 1 { seq_max(s) } else { 1 })) as u64,
    )
}

/// Scales every bar by the largest bar of the frame. The divisor is floored
/// at one micro-unit — the epsilon that keeps an all-silent frame at zero
/// instead of dividing by zero — so the results lie in `[0, SCALE]` with no
/// undefined values.
pub fn normalise_bars(bars: &Vec<u64>) -> (out: Vec<u64>)
    requires
        bounded_values(bars@),
    ensures
        out@ == spec_normalised(bars@),
        forall|i: int| 0 <= i < out@.len() ==> #[trigger] out@[i] <= SCALE,
{
    let mut maxv: u64 = 0;
    let mut i: usize = 0;
    while i < bars.len()
        invariant
            i <= bars@.len(),
            bounded_values(bars@),
            maxv as int == seq_max(bars@.subrange(0, i as int)),
            maxv <= MAX_MAGNITUDE,
        decreases bars@.len() - i,
    {
        proof {
            let pre = bars@.subrange(0, i as int);
            let post = bars@.subrange(0, i as int + 1);
            assert(post.drop_last() =~= pre);
            assert(post.last() == bars@[i as int]);
        }
        if bars[i] > maxv {
            maxv = bars[i];
        }
        i = i + 1;
    }
    proof {
        assert(bars@.subrange(0, bars@.len() as int) =~= bars@);
    }
    let den: u64 = if maxv >= 1 { maxv } else { 1 };
    let mut out: Vec<u64> = Vec::new();
    let mut i: usize = 0;
    while i < bars.len()
        invariant
            i <= bars@.len(),
            bounded_values(bars@),
            den as int == if seq_max(bars@) >= 1 { seq_max(bars@) } else { 1int },
            1 <= den,
            out@.len() == i,
            forall|k: int| 0 <= k < i as int
                ==> #[trigger] out@[k] == bars@[k] * SCALE / (den as int) && out@[k] <= SCALE,
        decreases bars@.len() - i,
    {
        proof {
            lemma_seq_max_ge_element(bars@, i as int);
            lemma_mul_upper_bound(
                bars@[i as int] as int, MAX_MAGNITUDE as int, SCALE as int, SCALE as int);
            lemma_mul_inequality(bars@[i as int] as int, den as int, SCALE as int);
            lemma_div_is_ordered(
                bars@[i as int] * SCALE, den as int * SCALE as int, den as int);
            lemma_div_by_multiple(SCALE as int, den as int);
            assert(den as int * SCALE as int == SCALE as int * den as int)
                by (nonlinear_arith);
        }
        out.push(bars[i] * SCALE / den);
        i = i + 1;
    }
    proof {
        assert(out@ =~= spec_normalised(bars@));
    }
    out
}

/// Builds a `Visualiser` from a configuration, validating it once upfront.
pub struct VisualiserBuilder {
    pub grouping: GroupingStrategy,
    pub smoothing: SmoothingStrategy,
    pub colour: ColourMapper,
    pub num_bars: usize,
}

/// The per-frame pipeline with its persistent state: the precomputed range
/// set, the smoothed bar vector, the colour mapper's own state, and a
/// smoothed chromagram for the chroma display mode. Not safe for concurrent
/// callers: every piece of state is mutated in place on each call.
pub struct Visualiser {
    pub sampling_rate: usize,
    pub fft_size: usize,
    pub grouping: GroupingStrategy,
    pub smoothing: SmoothingStrategy,
    pub colour: ColourMapper,
    pub grouping_ranges: Vec<(usize, usize)>,
    pub bars_to_display: Vec<u64>,
    /// Whether the bar vector has ever been populated: the first frame is
    /// copied in directly rather than blended up from zero.
    pub bars_primed: bool,
    pub smoothed_chromagram: Vec<u64>,
    pub chroma_primed: bool,
}

impl VisualiserBuilder {
    /// Defaults: 24 log-spaced bars with Max reduction, VU-meter ballistics
    /// (rise one half, fall nine tenths), a fixed white colour.
    pub fn new() -> (b: Self)
        ensures
            b.grouping is LogMax,
            b.smoothing == (SmoothingStrategy::RiseFall { rise: 500000u64, fall: 900000u64 }),
            b.colour is Static,
            b.num_bars == 24,
    {
        VisualiserBuilder {
            grouping: GroupingStrategy::LogMax,
            smoothing: SmoothingStrategy::RiseFall { rise: 500000, fall: 900000 },
            colour: ColourMapper::Static(StaticColour::new(
                Rgba { r: SCALE, g: SCALE, b: SCALE, a: SCALE },
            )),
            num_bars: 24,
        }
    }

    pub fn with_grouping(self, grouping: GroupingStrategy) -> (b: Self)
        ensures
            b.grouping == grouping,
            b.smoothing == self.smoothing,
            b.colour == self.colour,
            b.num_bars == self.num_bars,
    {
        VisualiserBuilder { grouping, ..self }
    }

    pub fn with_smoothing(self, smoothing: SmoothingStrategy) -> (b: Self)
        ensures
            b.smoothing == smoothing,
            b.grouping == self.grouping,
            b.colour == self.colour,
            b.num_bars == self.num_bars,
    {
        VisualiserBuilder { smoothing, ..self }
    }

    pub fn with_colour_mapper(self, colour: ColourMapper) -> (b: Self)
        ensures
            b.colour == colour,
            b.grouping == self.grouping,
            b.smoothing == self.smoothing,
            b.num_bars == self.num_bars,
    {
        VisualiserBuilder { colour, ..self }
    }

    pub fn with_num_bars(self, num_bars: usize) -> (b: Self)
        ensures
            b.num_bars == num_bars,
            b.grouping == self.grouping,
            b.smoothing == self.smoothing,
            b.colour == self.colour,
    {
        VisualiserBuilder { num_bars, ..self }
    }

    /// An invalid smoothing configuration: a coefficient above one.
    pub open spec fn smoothing_invalid(&self) -> bool {
        ||| match self.smoothing {
            SmoothingStrategy::RiseFall { rise, fall } => rise > SCALE || fall > SCALE,
            SmoothingStrategy::Off => false,
        }
        ||| match self.colour {
            ColourMapper::Chromagram(cc) => cc.smoothing_factor > SCALE,
            _ => false,
        }
    }

    /// Validates the configuration and builds the visualiser. Construction
    /// fails loudly on a bar count of zero, a gamma of zero, or a smoothing
    /// coefficient above one; the frame loop then never sees an invalid
    /// configuration.
    pub fn build(self, sampling_rate: usize, fft_size: usize) -> (r: Result<Visualiser, VizError>)
        requires
            2 <= sampling_rate <= 1000000,
            2 <= fft_size <= 0x1000000,
            self.num_bars <= 65536,
            match self.colour {
                ColourMapper::Static(sc) => sc.colour.wf(),
                ColourMapper::Chromagram(cc) => cc.wf(),
            },
        ensures
            ({
                if !(self.grouping is NoGrouping) && self.num_bars == 0 {
                    r == Err::<Visualiser, VizError>(VizError::ZeroBarCount)
                } else if match self.grouping {
                    GroupingStrategy::GammaCorrected { gamma } => gamma == 0,
                    _ => false,
                } {
                    r == Err::<Visualiser, VizError>(VizError::InvalidGamma)
                } else if self.smoothing_invalid() {
                    r == Err::<Visualiser, VizError>(VizError::InvalidSmoothing)
                } else {
                    &&& r is Ok
                    &&& r->Ok_0.wf()
                    &&& r->Ok_0.grouping == self.grouping
                    &&& r->Ok_0.smoothing == self.smoothing
                    &&& r->Ok_0.colour == self.colour
                    &&& r->Ok_0.sampling_rate == sampling_rate
                    &&& r->Ok_0.fft_size == fft_size
                    &&& !r->Ok_0.bars_primed
                    &&& !r->Ok_0.chroma_primed
                    &&& forall|i: int| 0 <= i < r->Ok_0.bars_to_display@.len()
                        ==> #[trigger] r->Ok_0.bars_to_display@[i] == 0
                    &&& r->Ok_0.smoothed_chromagram@.len() == 12
                    &&& forall|i: int| 0 <= i < 12
                        ==> #[trigger] r->Ok_0.smoothed_chromagram@[i] == 0
                    &&& (self.grouping is LogMax || self.grouping is LogMean
                        ==> r->Ok_0.grouping_ranges@.len() == self.num_bars)
                }
            }),
    {
        let needs_bars: bool = match self.grouping {
            GroupingStrategy::NoGrouping => false,
            _ => true,
        };
        if needs_bars && self.num_bars == 0 {
            return Err(VizError::ZeroBarCount);
        }
        let gamma_zero: bool = match self.grouping {
            GroupingStrategy::GammaCorrected { gamma } => gamma == 0,
            _ => false,
        };
        if gamma_zero {
            return Err(VizError::InvalidGamma);
        }
        let smoothing_bad: bool = match self.smoothing {
            SmoothingStrategy::RiseFall { rise, fall } => rise > SCALE || fall > SCALE,
            SmoothingStrategy::Off => false,
        };
        let colour_bad: bool = match &self.colour {
            ColourMapper::Chromagram(cc) => cc.smoothing_factor > SCALE,
            _ => false,
        };
        if smoothing_bad || colour_bad {
            return Err(VizError::InvalidSmoothing);
        }
        let num_bars: usize = if needs_bars { self.num_bars } else { 1 };
        let ranges = self.grouping.create_ranges(num_bars, sampling_rate, fft_size);
        let bar_count: usize = match self.grouping {
            GroupingStrategy::NoGrouping => fft_size / 2,
            _ => ranges.len(),
        };
        let mut bars: Vec<u64> = Vec::new();
        let mut z: usize = 0;
        while z < bar_count
            invariant
                z <= bar_count,
                bars@.len() == z,
                forall|c: int| 0 <= c < z as int ==> #[trigger] bars@[c] == 0,
            decreases bar_count - z,
        {
            bars.push(0);
            z = z + 1;
        }
        let mut chroma: Vec<u64> = Vec::new();
        let mut z: usize = 0;
        while z < 12
            invariant
                z <= 12,
                chroma@.len() == z,
                forall|c: int| 0 <= c < z as int ==> #[trigger] chroma@[c] == 0,
            decreases 12 - z,
        {
            chroma.push(0);
            z = z + 1;
        }
        Ok(Visualiser {
            sampling_rate,
            fft_size,
            grouping: self.grouping,
            smoothing: self.smoothing,
            colour: self.colour,
            grouping_ranges: ranges,
            bars_to_display: bars,
            bars_primed: false,
            smoothed_chromagram: chroma,
            chroma_primed: false,
        })
    }
}

impl Visualiser {
    /// The persistent state is consistent with the built configuration.
    pub open spec fn wf(&self) -> bool {
        &&& self.grouping.wf()
        &&& self.smoothing.wf()
        &&& self.colour.wf()
        &&& ranges_wf(self.grouping_ranges@)
        &&& bounded_values(self.bars_to_display@)
        &&& self.smoothed_chromagram@.len() == 12
        &&& bounded_values(self.smoothed_chromagram@)
        &&& 2 <= self.sampling_rate <= 1000000
        &&& 2 <= self.fft_size <= 0x1000000
        &&& !(self.grouping is NoGrouping)
            ==> self.bars_to_display@.len() == self.grouping_ranges@.len()
    }

    /// The raw (unsmoothed) bars this configuration computes from a
    /// spectrum: the spectrum itself, or one reduced value per range.
    pub open spec fn grouped_spec(&self, spectrum: Seq<u64>) -> Seq<u64> {
        match self.grouping {
            GroupingStrategy::NoGrouping => spectrum,
            GroupingStrategy::LogMax => Seq::new(
                self.grouping_ranges@.len(),
                |i: int| log_max_value(slice_of(spectrum, self.grouping_ranges@[i])),
            ),
            _ => Seq::new(
                self.grouping_ranges@.len(),
                |i: int| log_mean_value(slice_of(spectrum, self.grouping_ranges@[i])),
            ),
        }
    }

    /// This frame's spectrum is consistent with the built configuration:
    /// the identity layout needs the spectrum to match the bar vector, the
    /// range layouts need every range to fall inside the spectrum.
    pub open spec fn frame_ok(&self, spectrum: Seq<u64>) -> bool {
        match self.grouping {
            GroupingStrategy::NoGrouping => spectrum.len() == self.bars_to_display@.len(),
            _ => ranges_nonempty(self.grouping_ranges@)
                && ranges_within(self.grouping_ranges@, spectrum.len() as int),
        }
    }

    /// The smoothed bar vector after one update: the raw bars themselves on
    /// the very first frame, otherwise the configured blend of old and new.
    pub open spec fn bars_after(&self, spectrum: Seq<u64>) -> Seq<u64> {
        let g = self.grouped_spec(spectrum);
        if !self.bars_primed {
            g
        } else {
            Seq::new(g.len(), |i: int| match self.smoothing {
                SmoothingStrategy::RiseFall { rise, fall } =>
                    smooth_one(self.bars_to_display@[i], g[i], rise, fall),
                SmoothingStrategy::Off => g[i],
            })
        }
    }

    /// One frame: group and reduce the spectrum, smooth the bars in place,
    /// normalize by the frame maximum, and obtain a colour. A spectrum that
    /// does not match the built range set is rejected without touching any
    /// state, so the caller can skip the frame and keep the previous
    /// display.
    pub fn update(&mut self, spectrum: &Vec<u64>) -> (r: Result<(Vec<u64>, Rgba), VizError>)
        requires
            old(self).wf(),
            bounded_values(spectrum@),
            old(self).colour is Chromagram ==> {
                &&& seq_sum(spectrum@) <= MAX_MAGNITUDE
                &&& 1 <= spectrum@.len() <= 0x80000
            },
        ensures
            final(self).wf(),
            final(self).grouping == old(self).grouping,
            final(self).smoothing == old(self).smoothing,
            final(self).grouping_ranges@ == old(self).grouping_ranges@,
            final(self).sampling_rate == old(self).sampling_rate,
            final(self).fft_size == old(self).fft_size,
            final(self).smoothed_chromagram@ == old(self).smoothed_chromagram@,
            final(self).chroma_primed == old(self).chroma_primed,
            r is Err <==> !old(self).frame_ok(spectrum@),
            r is Err ==> *final(self) == *old(self)
                && r->Err_0 == VizError::SpectrumMismatch,
            r is Ok ==> {
                &&& final(self).bars_to_display@ == old(self).bars_after(spectrum@)
                &&& final(self).bars_primed
                &&& r->Ok_0.0@ == spec_normalised(old(self).bars_after(spectrum@))
                &&& colour_state_stepped(
                    old(self).colour, final(self).colour, spectrum@,
                    old(self).sampling_rate as int)
                &&& colour_result(old(self).colour, r->Ok_0.1)
                &&& chroma_colour_exact(final(self).colour, r->Ok_0.1)
                &&& degenerate_hue_red(final(self).colour, r->Ok_0.1)
                &&& r->Ok_0.1.wf()
            },
    {
        let grouped: Vec<u64> = match self.grouping.spectrum_to_bars(
            spectrum, &self.grouping_ranges) {
            Ok(g) => g,
            Err(e) => {
                return Err(e);
            },
        };
        proof {
            assert(grouped@ =~= old(self).grouped_spec(spectrum@));
        }
        if grouped.len() != self.bars_to_display.len() {
            return Err(VizError::SpectrumMismatch);
        }
        if !self.bars_primed {
            self.bars_to_display = grouped;
            self.bars_primed = true;
        } else {
            self.smoothing.smooth(&mut self.bars_to_display, &grouped);
        }
        proof {
            assert(self.bars_to_display@ =~= old(self).bars_after(spectrum@));
        }
        let normalised = normalise_bars(&self.bars_to_display);
        let sr: usize = self.sampling_rate;
        let colour = self.colour.get_colour(spectrum, sr);
        Ok((normalised, colour))
    }

    /// The pitch display: the input normalized by its maximum, folded into
    /// 128 MIDI pitch slots.
    pub fn pitch_display(&self, input: &Vec<u64>) -> (out: Vec<u64>)
        requires
            self.wf(),
            bounded_values(input@),
            1 <= input@.len() <= 0x80000,
        ensures
            out@.len() == 128,
            forall|p: int| 0 <= p < 128 ==> #[trigger] out@[p] == pitch_slot_sum(
                spec_normalised(input@), self.sampling_rate as int, p, input@.len() as int),
    {
        let n = normalise_bars(input);
        frequency_to_pitch_spectrum(&n, self.sampling_rate)
    }

    /// The chromagram this configuration computes for the chroma display
    /// from a raw input spectrum, after smoothing: the fresh chromagram
    /// itself on the very first frame, otherwise the configured blend.
    pub open spec fn display_chroma_after(&self, input: Seq<u64>) -> Seq<u64> {
        let fresh = Seq::new(
            12,
            |c: int| frame_chroma(spec_normalised(input), self.sampling_rate as int, c),
        );
        if !self.chroma_primed {
            fresh
        } else {
            Seq::new(12, |c: int| match self.smoothing {
                SmoothingStrategy::RiseFall { rise, fall } =>
                    smooth_one(self.smoothed_chromagram@[c], fresh[c], rise, fall),
                SmoothingStrategy::Off => fresh[c],
            })
        }
    }

    /// The chroma display: normalize the input, fold it into pitches and
    /// pitch classes, smooth the persistent display chromagram in place,
    /// and select the three loudest pitch classes.
    pub fn chroma_display(&mut self, input: &Vec<u64>) -> (out: (Vec<u64>, Vec<usize>))
        requires
            old(self).wf(),
            bounded_values(input@),
            1 <= input@.len() <= 0x80000,
        ensures
            final(self).wf(),
            final(self).grouping == old(self).grouping,
            final(self).smoothing == old(self).smoothing,
            final(self).colour == old(self).colour,
            final(self).grouping_ranges@ == old(self).grouping_ranges@,
            final(self).sampling_rate == old(self).sampling_rate,
            final(self).fft_size == old(self).fft_size,
            final(self).bars_to_display@ == old(self).bars_to_display@,
            final(self).bars_primed == old(self).bars_primed,
            final(self).chroma_primed,
            final(self).smoothed_chromagram@ == old(self).display_chroma_after(input@),
            out.0@ == final(self).smoothed_chromagram@,
            bounded_values(out.0@),
            out.1@.len() == 3,
            top_selection(final(self).smoothed_chromagram@, out.1@),
    {
        let n = normalise_bars(input);
        proof {
            lemma_seq_sum_bounds(n@, SCALE);
            assert(n@.subrange(0, n@.len() as int) =~= n@);
            lemma_mul_upper_bound(n@.len() as int, 0x80000, SCALE as int, SCALE as int);
        }
        let pitches = frequency_to_pitch_spectrum(&n, self.sampling_rate);
        proof {
            assert forall|p: int| 0 <= p < 128
                implies #[trigger] pitches@[p] <= MAX_MAGNITUDE by {
                lemma_pitch_slot_le_sum(n@, self.sampling_rate as int, p, n@.len() as int);
            }
            assert(pitches@ =~= pitch_seq(n@, self.sampling_rate as int));
        }
        let fresh = pitch_spectrum_to_chromagram(&pitches);
        proof {
            // One pitch class cannot exceed the frame's total energy, which
            // normalization keeps below the magnitude cap.
            assert forall|c: int| 0 <= c < 12
                implies #[trigger] fresh@[c] <= MAX_MAGNITUDE by {
                lemma_frame_chroma_le_energy(n@, self.sampling_rate as int, c);
                assert(fresh@[c] as int
                    == frame_chroma(n@, self.sampling_rate as int, c) as int);
            }
        }
        if !self.chroma_primed {
            self.smoothed_chromagram = fresh;
            self.chroma_primed = true;
        } else {
            self.smoothing.smooth(&mut self.smoothed_chromagram, &fresh);
        }
        proof {
            assert(self.smoothed_chromagram@ =~= old(self).display_chroma_after(input@));
        }
        let top = get_n_largest_indices(&self.smoothed_chromagram, 3);
        let chroma_copy = copy_intensities(&self.smoothed_chromagram);
        (chroma_copy, top)
    }
}

} // verus!
