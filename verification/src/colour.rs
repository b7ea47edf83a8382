//! Display colour selection: a fixed colour, or a hue derived from the
//! harmonic content of the signal by circular (hue-vector) averaging.
//!
//! Hue angles are never averaged directly: each pitch class contributes a
//! weighted unit vector, the vectors are summed and smoothed component-wise,
//! and only the final vector is turned back into an angle. The vector is
//! kept as separate positive and negative parts so all arithmetic stays on
//! unsigned fixed-point values.

use vstd::prelude::*;
use vstd::arithmetic::div_mod::{
    lemma_div_is_ordered, lemma_div_multiples_vanish, lemma_mod_multiples_vanish,
    lemma_small_mod,
};
use vstd::arithmetic::mul::{lemma_mul_inequality, lemma_mul_upper_bound};
use crate::fixed::{blend, lemma_mul_scaled_le, mul_scaled, spec_blend, spec_mul_scaled};
use crate::spectra::{
    chroma_sum, frequency_to_pitch_spectrum, lemma_chroma_sum_bound,
    lemma_chroma_sum_le_seq_sum, lemma_pitch_slot_le_sum, lemma_slots_le_sum, pitch_slot_sum,
    pitch_spectrum_to_chromagram, slots_sum_upto,
};
use crate::{bounded_values, seq_sum, MAX_MAGNITUDE, SCALE};

verus! {

/// Largest value a chromagram entry can reach: all 128 pitch slots at the
/// energy cap.
pub const CHROMA_CAP: u64 = 128 * 0x1000_0000_0000;

/// An RGBA colour with micro-unit channels in `[0, SCALE]`.
#[derive(Clone, Copy, Debug, PartialEq, Eq, Structural)]
pub struct Rgba {
    pub r: u64,
    pub g: u64,
    pub b: u64,
    pub a: u64,
}

impl Rgba {
    /// All channels lie in `[0, SCALE]`.
    pub open spec fn wf(&self) -> bool {
        self.r <= SCALE && self.g <= SCALE && self.b <= SCALE && self.a <= SCALE
    }
}

/// `|cos(i * 30 degrees)|` (for the x axis) or `|sin(i * 30 degrees)|`
/// (for the y axis), in micro-units.
pub open spec fn hue_mag(i: int, xaxis: bool) -> u64 {
    if xaxis {
        if i == 0 { 1000000 }
        else if i == 1 { 866025 }
        else if i == 2 { 500000 }
        else if i == 3 { 0 }
        else if i == 4 { 500000 }
        else if i == 5 { 866025 }
        else if i == 6 { 1000000 }
        else if i == 7 { 866025 }
        else if i == 8 { 500000 }
        else if i == 9 { 0 }
        else if i == 10 { 500000 }
        else { 866025 }
    } else {
        if i == 0 { 0 }
        else if i == 1 { 500000 }
        else if i == 2 { 866025 }
        else if i == 3 { 1000000 }
        else if i == 4 { 866025 }
        else if i == 5 { 500000 }
        else if i == 6 { 0 }
        else if i == 7 { 500000 }
        else if i == 8 { 866025 }
        else if i == 9 { 1000000 }
        else if i == 10 { 866025 }
        else { 500000 }
    }
}

/// Whether `cos(i * 30 degrees)` (x axis) or `sin(i * 30 degrees)` (y axis)
/// is negative.
pub open spec fn hue_is_neg(i: int, xaxis: bool) -> bool {
    if xaxis {
        4 <= i <= 8
    } else {
        7 <= i <= 11
    }
}

fn hue_mag_at(i: usize, xaxis: bool) -> (m: u64)
    requires
        i < 12,
    ensures
        m == hue_mag(i as int, xaxis),
        m <= SCALE,
{
    if xaxis {
        match i {
            0 => 1000000, 1 => 866025, 2 => 500000, 3 => 0, 4 => 500000, 5 => 866025,
            6 => 1000000, 7 => 866025, 8 => 500000, 9 => 0, 10 => 500000, _ => 866025,
        }
    } else {
        match i {
            0 => 0, 1 => 500000, 2 => 866025, 3 => 1000000, 4 => 866025, 5 => 500000,
            6 => 0, 7 => 500000, 8 => 866025, 9 => 1000000, 10 => 866025, _ => 500000,
        }
    }
}

/// One pitch class's contribution to the chosen part (positive or negative)
/// of the chosen hue-vector axis.
pub open spec fn hue_term(ch: Seq<u64>, i: int, xaxis: bool, pos: bool) -> int {
    if hue_is_neg(i, xaxis) != pos {
        spec_mul_scaled(ch[i], hue_mag(i, xaxis)) as int
    } else {
        0
    }
}

/// The chosen part of the instantaneous chroma-weighted hue vector, summed
/// over the first `n` pitch classes.
pub open spec fn hue_sum(ch: Seq<u64>, n: int, xaxis: bool, pos: bool) -> int
    decreases n,
{
    if n <= 0 {
        0
    } else {
        hue_sum(ch, n - 1, xaxis, pos) + hue_term(ch, n - 1, xaxis, pos)
    }
}

/// Accumulates one part of the instantaneous hue vector.
fn hue_component(sm: &Vec<u64>, xaxis: bool, pos: bool) -> (acc: u64)
    requires
        sm@.len() == 12,
        forall|i: int| 0 <= i < 12 ==> #[trigger] sm@[i] <= CHROMA_CAP,
    ensures
        acc as int == hue_sum(sm@, 12, xaxis, pos),
        acc <= 12 * CHROMA_CAP,
{
    let mut acc: u64 = 0;
    let mut i: usize = 0;
    while i < 12
        invariant
            i <= 12,
            sm@.len() == 12,
            forall|k: int| 0 <= k < 12 ==> #[trigger] sm@[k] <= CHROMA_CAP,
            acc as int == hue_sum(sm@, i as int, xaxis, pos),
            acc <= i * CHROMA_CAP,
        decreases 12 - i,
    {
        let neg_here: bool = if xaxis { 4 <= i && i <= 8 } else { 7 <= i && i <= 11 };
        proof {
            lemma_mul_scaled_le(sm@[i as int], hue_mag(i as int, xaxis));
            assert(i as int * CHROMA_CAP + CHROMA_CAP == (i + 1) as int * CHROMA_CAP)
                by (nonlinear_arith);
            assert(12 * (CHROMA_CAP as int) <= u64::MAX) by (nonlinear_arith);
        }
        if neg_here != pos {
            let m = hue_mag_at(i, xaxis);
            let term = mul_scaled(sm[i], m);
            acc = acc + term;
        }
        i = i + 1;
    }
    acc
}

/// The numerator after both components are halved until the denominator
/// fits in 32 bits: the ratio is nearly preserved, and zeroes and equality
/// exactly.
pub open spec fn reduced_num(a: u64, b: u64) -> u64
    decreases b,
{
    if b > 0xFFFF_FFFF {
        reduced_num((a as int / 2) as u64, (b as int / 2) as u64)
    } else {
        a
    }
}

/// The denominator after the same halving.
pub open spec fn reduced_den(a: u64, b: u64) -> u64
    decreases b,
{
    if b > 0xFFFF_FFFF {
        reduced_den((a as int / 2) as u64, (b as int / 2) as u64)
    } else {
        b
    }
}

/// The quadratic arctangent approximation, in micro-degrees, applied to the
/// reduced ratio `a / b`.
pub open spec fn spec_atan_frac(a: u64, b: u64) -> u64 {
    let aa = reduced_num(a, b);
    let bb = reduced_den(a, b);
    let t = aa * SCALE / (bb as int);
    let t2 = t * t / (SCALE as int);
    (61260000 * t / (SCALE as int) - 16260000 * t2 / (SCALE as int)) as u64
}

/// The fraction `atan(a / b)` of a right angle, in micro-degrees, by a
/// quadratic approximation that is exact at the axes (`a == 0` gives 0) and
/// on the diagonal (`a == b` gives 45 degrees).
fn atan_frac(a: u64, b: u64) -> (r: u64)
    requires
        a <= b,
        1 <= b,
    ensures
        r == spec_atan_frac(a, b),
        r <= 61260000,
        a == 0 ==> r == 0,
        a == b ==> r == 45000000,
{
    let mut aa: u64 = a;
    let mut bb: u64 = b;
    while bb > 0xFFFF_FFFF
        invariant
            aa <= bb,
            1 <= bb,
            a == 0 ==> aa == 0,
            a == b ==> aa == bb,
            reduced_num(aa, bb) == reduced_num(a, b),
            reduced_den(aa, bb) == reduced_den(a, b),
        decreases bb,
    {
        aa = aa / 2;
        bb = bb / 2;
    }
    proof {
        lemma_mul_inequality(aa as int, bb as int, SCALE as int);
        lemma_div_is_ordered(aa as int * SCALE as int, bb as int * SCALE as int, bb as int);
        lemma_div_multiples_vanish(SCALE as int, bb as int);
        lemma_mul_upper_bound(aa as int, 0xFFFF_FFFF, SCALE as int, SCALE as int);
    }
    let t: u64 = aa * SCALE / bb;
    proof {
        lemma_mul_inequality(t as int, SCALE as int, t as int);
        lemma_div_is_ordered(t as int * t as int, SCALE as int * t as int, SCALE as int);
        assert(SCALE as int * t as int == t as int * SCALE as int) by (nonlinear_arith);
        lemma_div_multiples_vanish(t as int, SCALE as int);
        lemma_mul_upper_bound(t as int, SCALE as int, t as int, SCALE as int);
    }
    let t2: u64 = t * t / SCALE;
    proof {
        lemma_mul_inequality(t2 as int, t as int, 16260000);
        assert(16260000 * t as int <= 61260000 * t as int);
        lemma_div_is_ordered(16260000 * t2 as int, 61260000 * t as int, SCALE as int);
        lemma_mul_inequality(t as int, SCALE as int, 61260000);
        assert(61260000 * (SCALE as int) == (SCALE as int) * 61260000int) by (nonlinear_arith);
        lemma_div_is_ordered(61260000 * t as int, 61260000 * SCALE as int, SCALE as int);
        lemma_div_multiples_vanish(61260000, SCALE as int);
        assert(16260000 * (t2 as int) <= 61260000 * (t as int)) by {
            lemma_mul_inequality(t2 as int, t as int, 16260000);
            assert(16260000 * (t as int) <= 61260000 * (t as int)) by (nonlinear_arith);
        };
    }
    let u1: u64 = 61260000 * t / SCALE;
    let u2: u64 = 16260000 * t2 / SCALE;
    proof {
        lemma_div_is_ordered(16260000 * (t2 as int), 61260000 * (t as int), SCALE as int);
    }
    u1 - u2
}

/// The angle, in micro-degrees in `[0, 360)`, of the vector whose x part is
/// `xp - xn` and whose y part is `yp - yn`: octant reduction around the
/// arctangent approximation, with the zero vector defaulting to 0.
pub open spec fn spec_atan2_deg(xp: u64, xn: u64, yp: u64, yn: u64) -> u64 {
    let xpos = xp >= xn;
    let ypos = yp >= yn;
    let ax = if xpos { (xp - xn) as u64 } else { (xn - xp) as u64 };
    let ay = if ypos { (yp - yn) as u64 } else { (yn - yp) as u64 };
    if ax == 0 && ay == 0 {
        0
    } else {
        let theta: int = if ay <= ax {
            spec_atan_frac(ay, ax) as int
        } else {
            90 * SCALE - spec_atan_frac(ax, ay)
        };
        if xpos && ypos {
            theta as u64
        } else if !xpos && ypos {
            (180 * SCALE - theta) as u64
        } else if !xpos && !ypos {
            (180 * SCALE + theta) as u64
        } else {
            if 360 * SCALE - theta == 360 * SCALE {
                0
            } else {
                (360 * SCALE - theta) as u64
            }
        }
    }
}

/// The angle of the vector `(xp - xn, yp - yn)` in micro-degrees, in
/// `[0, 360)`: octant reduction around an integer arctangent approximation.
/// The zero vector defaults to hue 0, and vectors on the axes map to the
/// exact axis angles.
pub fn atan2_deg(xp: u64, xn: u64, yp: u64, yn: u64) -> (h: u64)
    ensures
        h == spec_atan2_deg(xp, xn, yp, yn),
        h < 360 * SCALE,
        yp == yn && xp >= xn ==> h == 0,
        xp == xn && yp > yn ==> h == 90 * SCALE,
        yp == yn && xp < xn ==> h == 180 * SCALE,
        xp == xn && yp < yn ==> h == 270 * SCALE,
{
    let xpos: bool = xp >= xn;
    let ypos: bool = yp >= yn;
    let ax: u64 = if xpos { xp - xn } else { xn - xp };
    let ay: u64 = if ypos { yp - yn } else { yn - yp };
    if ax == 0 && ay == 0 {
        return 0;
    }
    let theta: u64 = if ay <= ax {
        atan_frac(ay, ax)
    } else {
        90 * SCALE - atan_frac(ax, ay)
    };
    if xpos && ypos {
        theta
    } else if !xpos && ypos {
        180 * SCALE - theta
    } else if !xpos && !ypos {
        180 * SCALE + theta
    } else {
        let wrapped: u64 = 360 * SCALE - theta;
        if wrapped == 360 * SCALE {
            0
        } else {
            wrapped
        }
    }
}

/// The three colour channels of a hue/saturation/value triple, all in
/// micro-units: the standard sector construction on the colour wheel.
pub open spec fn spec_hsv_channels(h: u64, s: u64, v: u64) -> (u64, u64, u64) {
    let hw = h as int % (360 * SCALE as int);
    let c = spec_mul_scaled(v, s);
    let sector = hw / (60 * SCALE as int);
    let pos = hw % (120 * SCALE as int);
    let dist = if pos >= 60 * SCALE { pos - 60 * SCALE } else { 60 * SCALE - pos };
    let frac = dist / 60;
    let x = spec_mul_scaled(c, (SCALE - frac) as u64);
    let m = (v - c) as u64;
    if sector == 0 { (((c + m) as u64, (x + m) as u64, m)) }
    else if sector == 1 { (((x + m) as u64, (c + m) as u64, m)) }
    else if sector == 2 { ((m, (c + m) as u64, (x + m) as u64)) }
    else if sector == 3 { ((m, (x + m) as u64, (c + m) as u64)) }
    else if sector == 4 { (((x + m) as u64, m, (c + m) as u64)) }
    else { (((c + m) as u64, m, (x + m) as u64)) }
}

/// The 128-entry pitch spectrum of a frame, as a mathematical sequence.
pub open spec fn pitch_seq(spectrum: Seq<u64>, sr: int) -> Seq<u64> {
    Seq::new(128, |p: int| pitch_slot_sum(spectrum, sr, p, spectrum.len() as int) as u64)
}

/// Pitch class `c` of the chromagram computed from a frame's spectrum.
pub open spec fn frame_chroma(spectrum: Seq<u64>, sr: int, c: int) -> u64 {
    chroma_sum(pitch_seq(spectrum, sr), c, 128) as u64
}

proof fn lemma_pitch_seq_prefix_sum(s: Seq<u64>, sr: int, m: int)
    requires
        0 <= m <= 128,
        seq_sum(s) <= u64::MAX,
    ensures
        seq_sum(pitch_seq(s, sr).subrange(0, m)) == slots_sum_upto(s, sr, s.len() as int, m),
    decreases m,
{
    if m > 0 {
        lemma_pitch_seq_prefix_sum(s, sr, m - 1);
        let ps = pitch_seq(s, sr);
        assert(ps.subrange(0, m).drop_last() =~= ps.subrange(0, m - 1));
        assert(ps.subrange(0, m).last() == ps[m - 1]);
        lemma_pitch_slot_le_sum(s, sr, m - 1, s.len() as int);
        assert(s.subrange(0, s.len() as int) =~= s);
        assert(ps[m - 1] as int == pitch_slot_sum(s, sr, m - 1, s.len() as int));
    }
}

/// A frame chromagram entry never exceeds the frame's total energy: the
/// pitch slots partition the bins, and one pitch class sums a subset of the
/// slots.
pub proof fn lemma_frame_chroma_le_energy(s: Seq<u64>, sr: int, c: int)
    requires
        seq_sum(s) <= u64::MAX,
    ensures
        frame_chroma(s, sr, c) as int <= seq_sum(s),
{
    let ps = pitch_seq(s, sr);
    lemma_chroma_sum_le_seq_sum(ps, c, 128);
    assert(ps.subrange(0, 128) =~= ps);
    lemma_pitch_seq_prefix_sum(s, sr, 128);
    lemma_slots_le_sum(s, sr, s.len() as int);
    assert(s.subrange(0, s.len() as int) =~= s);
}

/// Always returns one fixed configured colour; ignores the spectrum.
pub struct StaticColour {
    pub colour: Rgba,
}

impl StaticColour {
    pub fn new(colour: Rgba) -> (s: Self)
        ensures
            s.colour == colour,
    {
        StaticColour { colour }
    }

    pub fn get_colour(&mut self, _spectrum: &Vec<u64>, _sampling_rate: usize) -> (c: Rgba)
        ensures
            *final(self) == *old(self),
            c == old(self).colour,
    {
        self.colour
    }
}

/// Derives the display colour from the signal's pitch-class content: the
/// chromagram is smoothed across frames, folded into a hue vector, the
/// vector itself smoothed, and only then turned into an angle and a colour.
pub struct ChromagramColour {
    /// Positive and negative parts of the persistent smoothed hue vector.
    pub hue_x_pos: u64,
    pub hue_x_neg: u64,
    pub hue_y_pos: u64,
    pub hue_y_neg: u64,
    /// Single smoothing coefficient, in micro-units, at most `SCALE`.
    pub smoothing_factor: u64,
    /// Persistent smoothed chromagram, 12 entries.
    pub smoothed_chromagram: Vec<u64>,
}

impl ChromagramColour {
    /// The persistent state is well formed: 12 chroma entries at most
    /// `CHROMA_CAP`, hue parts at most twelve times that, coefficient at
    /// most one.
    pub open spec fn wf(&self) -> bool {
        &&& self.smoothing_factor <= SCALE
        &&& self.smoothed_chromagram@.len() == 12
        &&& forall|i: int| 0 <= i < 12 ==> #[trigger] self.smoothed_chromagram@[i] <= CHROMA_CAP
        &&& self.hue_x_pos <= 12 * CHROMA_CAP
        &&& self.hue_x_neg <= 12 * CHROMA_CAP
        &&& self.hue_y_pos <= 12 * CHROMA_CAP
        &&& self.hue_y_neg <= 12 * CHROMA_CAP
    }

    /// The selected part of the persistent hue vector.
    pub open spec fn hue_part(self, xaxis: bool, pos: bool) -> u64 {
        if xaxis {
            if pos { self.hue_x_pos } else { self.hue_x_neg }
        } else {
            if pos { self.hue_y_pos } else { self.hue_y_neg }
        }
    }

    /// The smoothed chromagram after blending in this frame's chromagram.
    pub open spec fn smoothed_seq_after(self, spectrum: Seq<u64>, sr: int) -> Seq<u64> {
        Seq::new(12, |i: int| spec_blend(
            self.smoothed_chromagram@[i], frame_chroma(spectrum, sr, i), self.smoothing_factor))
    }

    /// A hue-vector part after blending in this frame's instantaneous vector.
    pub open spec fn spec_hue_after(self, spectrum: Seq<u64>, sr: int, xaxis: bool, pos: bool)
        -> u64 {
        spec_blend(
            self.hue_part(xaxis, pos),
            hue_sum(self.smoothed_seq_after(spectrum, sr), 12, xaxis, pos) as u64,
            self.smoothing_factor,
        )
    }

    pub fn new(smoothing_factor: u64) -> (s: Self)
        requires
            smoothing_factor <= SCALE,
        ensures
            s.wf(),
            s.smoothing_factor == smoothing_factor,
            s.hue_x_pos == 0 && s.hue_x_neg == 0 && s.hue_y_pos == 0 && s.hue_y_neg == 0,
            forall|i: int| 0 <= i < 12 ==> #[trigger] s.smoothed_chromagram@[i] == 0,
    {
        let mut chroma: Vec<u64> = Vec::new();
        let mut z: usize = 0;
        while z < 12
            invariant
                z <= 12,
                chroma@.len() == z,
                forall|c: int| 0 <= c < z as int ==> #[trigger] chroma@[c] == 0,
            decreases 12 - z,
        {
            chroma.push(0);
            z = z + 1;
        }
        ChromagramColour {
            hue_x_pos: 0,
            hue_x_neg: 0,
            hue_y_pos: 0,
            hue_y_neg: 0,
            smoothing_factor,
            smoothed_chromagram: chroma,
        }
    }

    /// One frame step: smooth the chromagram, fold it into the hue vector,
    /// smooth the vector, and convert the resulting angle to a colour. A
    /// degenerate (zero or x-axis) final vector yields hue 0 exactly.
    pub fn get_colour(&mut self, spectrum: &Vec<u64>, sampling_rate: usize) -> (c: Rgba)
        requires
            old(self).wf(),
            bounded_values(spectrum@),
            seq_sum(spectrum@) <= MAX_MAGNITUDE,
            1 <= spectrum@.len() <= 0x80000,
            2 <= sampling_rate <= 1000000,
        ensures
            final(self).wf(),
            final(self).smoothing_factor == old(self).smoothing_factor,
            final(self).smoothed_chromagram@
                == old(self).smoothed_seq_after(spectrum@, sampling_rate as int),
            final(self).hue_x_pos
                == old(self).spec_hue_after(spectrum@, sampling_rate as int, true, true),
            final(self).hue_x_neg
                == old(self).spec_hue_after(spectrum@, sampling_rate as int, true, false),
            final(self).hue_y_pos
                == old(self).spec_hue_after(spectrum@, sampling_rate as int, false, true),
            final(self).hue_y_neg
                == old(self).spec_hue_after(spectrum@, sampling_rate as int, false, false),
            c.wf(),
            c.a == SCALE,
            c == ({
                let h = spec_atan2_deg(
                    final(self).hue_x_pos, final(self).hue_x_neg,
                    final(self).hue_y_pos, final(self).hue_y_neg);
                let rgb = spec_hsv_channels(h, SCALE, SCALE);
                (Rgba { r: rgb.0, g: rgb.1, b: rgb.2, a: SCALE })
            }),
            final(self).hue_y_pos == final(self).hue_y_neg
                && final(self).hue_x_pos >= final(self).hue_x_neg
                ==> c == (Rgba { r: SCALE, g: 0, b: 0, a: SCALE }),
    {
        let pitches = frequency_to_pitch_spectrum(spectrum, sampling_rate);
        proof {
            assert(spectrum@.subrange(0, spectrum@.len() as int) =~= spectrum@);
            assert forall|p: int| 0 <= p < 128
                implies #[trigger] pitches@[p] <= MAX_MAGNITUDE by {
                lemma_pitch_slot_le_sum(
                    spectrum@, sampling_rate as int, p, spectrum@.len() as int);
            }
            assert(pitches@ =~= pitch_seq(spectrum@, sampling_rate as int));
        }
        let fresh = pitch_spectrum_to_chromagram(&pitches);
        proof {
            assert forall|c: int| 0 <= c < 12
                implies #[trigger] fresh@[c] <= CHROMA_CAP
                    && fresh@[c] == frame_chroma(spectrum@, sampling_rate as int, c) by {
                lemma_chroma_sum_bound(pitches@, c, 128);
            }
        }
        let sf: u64 = self.smoothing_factor;
        let mut i: usize = 0;
        while i < 12
            invariant
                i <= 12,
                old(self).wf(),
                sf == old(self).smoothing_factor,
                self.smoothing_factor == old(self).smoothing_factor,
                self.hue_x_pos == old(self).hue_x_pos,
                self.hue_x_neg == old(self).hue_x_neg,
                self.hue_y_pos == old(self).hue_y_pos,
                self.hue_y_neg == old(self).hue_y_neg,
                self.smoothed_chromagram@.len() == 12,
                fresh@.len() == 12,
                forall|c: int| 0 <= c < 12 ==> #[trigger] fresh@[c] <= CHROMA_CAP
                    && fresh@[c] == frame_chroma(spectrum@, sampling_rate as int, c),
                forall|k: int| 0 <= k < i as int ==> #[trigger] self.smoothed_chromagram@[k]
                    == spec_blend(old(self).smoothed_chromagram@[k], fresh@[k], sf)
                    && self.smoothed_chromagram@[k] <= CHROMA_CAP,
                forall|k: int| i as int <= k < 12 ==> #[trigger] self.smoothed_chromagram@[k]
                    == old(self).smoothed_chromagram@[k],
            decreases 12 - i,
        {
            let b = blend(self.smoothed_chromagram[i], fresh[i], sf);
            self.smoothed_chromagram.set(i, b);
            i = i + 1;
        }
        proof {
            assert(self.smoothed_chromagram@
                =~= old(self).smoothed_seq_after(spectrum@, sampling_rate as int));
        }
        let xp = hue_component(&self.smoothed_chromagram, true, true);
        let xn = hue_component(&self.smoothed_chromagram, true, false);
        let yp = hue_component(&self.smoothed_chromagram, false, true);
        let yn = hue_component(&self.smoothed_chromagram, false, false);
        self.hue_x_pos = blend(self.hue_x_pos, xp, sf);
        self.hue_x_neg = blend(self.hue_x_neg, xn, sf);
        self.hue_y_pos = blend(self.hue_y_pos, yp, sf);
        self.hue_y_neg = blend(self.hue_y_neg, yn, sf);
        let hue = atan2_deg(self.hue_x_pos, self.hue_x_neg, self.hue_y_pos, self.hue_y_neg);
        let (r, g, b) = hsv_to_rgb(hue, SCALE, SCALE);
        proof {
            if hue == 0 {
                lemma_small_mod(0, (360 * SCALE) as nat);
                lemma_mul_scaled_le(SCALE, SCALE);
                assert(SCALE as int * SCALE as int == (SCALE as int) * (SCALE as int));
                lemma_div_multiples_vanish(SCALE as int, SCALE as int);
                assert(spec_mul_scaled(SCALE, SCALE) == SCALE);
                assert(spec_mul_scaled(SCALE, 0) == 0);
                assert((r, g, b) == (SCALE, 0u64, 0u64));
            }
        }
        Rgba { r, g, b, a: SCALE }
    }
}

/// The configured colour source: one fixed colour or the chromagram hue.
/// A closed set of variants, dispatched by exhaustive match.
pub enum ColourMapper {
    Static(StaticColour),
    Chromagram(ChromagramColour),
}

/// How one frame advances a colour mapper's persistent state: a static
/// mapper never changes, a chromagram mapper blends in this frame's
/// chromagram and hue vector.
pub open spec fn colour_state_stepped(
    before: ColourMapper,
    after: ColourMapper,
    spectrum: Seq<u64>,
    sr: int,
) -> bool {
    match before {
        ColourMapper::Static(_) => after == before,
        ColourMapper::Chromagram(cc) => {
            &&& after is Chromagram
            &&& after->Chromagram_0.smoothing_factor == cc.smoothing_factor
            &&& after->Chromagram_0.smoothed_chromagram@ == cc.smoothed_seq_after(spectrum, sr)
            &&& after->Chromagram_0.hue_x_pos == cc.spec_hue_after(spectrum, sr, true, true)
            &&& after->Chromagram_0.hue_x_neg == cc.spec_hue_after(spectrum, sr, true, false)
            &&& after->Chromagram_0.hue_y_pos == cc.spec_hue_after(spectrum, sr, false, true)
            &&& after->Chromagram_0.hue_y_neg == cc.spec_hue_after(spectrum, sr, false, false)
        },
    }
}

/// What the returned colour is: the configured colour for a static mapper,
/// a fully saturated hue for a chromagram mapper.
pub open spec fn colour_result(before: ColourMapper, c: Rgba) -> bool {
    match before {
        ColourMapper::Static(sc) => c == sc.colour,
        ColourMapper::Chromagram(_) => c.a == SCALE,
    }
}

/// The chromagram mapper's colour is fully determined by its final hue
/// vector: the vector's angle, through the standard HSV wheel at full
/// saturation and value.
pub open spec fn chroma_colour_exact(after: ColourMapper, c: Rgba) -> bool {
    match after {
        ColourMapper::Static(_) => true,
        ColourMapper::Chromagram(nc) => c == ({
            let h = spec_atan2_deg(nc.hue_x_pos, nc.hue_x_neg, nc.hue_y_pos, nc.hue_y_neg);
            let rgb = spec_hsv_channels(h, SCALE, SCALE);
            (Rgba { r: rgb.0, g: rgb.1, b: rgb.2, a: SCALE })
        }),
    }
}

/// The degenerate-vector rule: a chromagram mapper whose final hue vector
/// is zero or lies on the positive x axis displays hue 0 exactly — pure
/// red — rather than an arbitrary in-between hue.
pub open spec fn degenerate_hue_red(after: ColourMapper, c: Rgba) -> bool {
    match after {
        ColourMapper::Static(_) => true,
        ColourMapper::Chromagram(nc) =>
            nc.hue_y_pos == nc.hue_y_neg && nc.hue_x_pos >= nc.hue_x_neg
                ==> c == (Rgba { r: SCALE, g: 0, b: 0, a: SCALE }),
    }
}

impl ColourMapper {
    pub open spec fn wf(&self) -> bool {
        match *self {
            ColourMapper::Static(sc) => sc.colour.wf(),
            ColourMapper::Chromagram(cc) => cc.wf(),
        }
    }

    /// The colour for this frame; the chromagram variant also advances its
    /// persistent smoothed state.
    pub fn get_colour(&mut self, spectrum: &Vec<u64>, sampling_rate: usize) -> (c: Rgba)
        requires
            old(self).wf(),
            *old(self) is Chromagram ==> {
                &&& bounded_values(spectrum@)
                &&& seq_sum(spectrum@) <= MAX_MAGNITUDE
                &&& 1 <= spectrum@.len() <= 0x80000
                &&& 2 <= sampling_rate <= 1000000
            },
        ensures
            final(self).wf(),
            c.wf(),
            colour_state_stepped(*old(self), *final(self), spectrum@, sampling_rate as int),
            colour_result(*old(self), c),
            chroma_colour_exact(*final(self), c),
            degenerate_hue_red(*final(self), c),
    {
        match self {
            ColourMapper::Static(sc) => sc.get_colour(spectrum, sampling_rate),
            ColourMapper::Chromagram(cc) => cc.get_colour(spectrum, sampling_rate),
        }
    }
}

/// A full turn added to the hue leaves the colour unchanged: the hue is
/// reduced modulo 360 degrees before the sector construction.
pub proof fn lemma_hsv_wraps(h: u64, s: u64, v: u64)
    requires
        h + 360 * SCALE <= u64::MAX,
    ensures
        spec_hsv_channels((h + 360 * SCALE) as u64, s, v) == spec_hsv_channels(h, s, v),
{
    lemma_mod_multiples_vanish(1, h as int, 360 * SCALE as int);
}

/// Converts hue (micro-degrees, any number of turns), saturation and value
/// (micro-units) to RGB channels in micro-units. The hue wraps modulo 360
/// degrees.
pub fn hsv_to_rgb(h: u64, s: u64, v: u64) -> (rgb: (u64, u64, u64))
    requires
        s <= SCALE,
        v <= SCALE,
    ensures
        rgb == spec_hsv_channels(h, s, v),
        rgb.0 <= SCALE && rgb.1 <= SCALE && rgb.2 <= SCALE,
{
    proof {
        lemma_mul_scaled_le(v, s);
    }
    let hh: u64 = h % (360 * SCALE);
    let c: u64 = mul_scaled(v, s);
    let sector: u64 = hh / (60 * SCALE);
    let pos: u64 = hh % (120 * SCALE);
    let dist: u64 = if pos >= 60 * SCALE { pos - 60 * SCALE } else { 60 * SCALE - pos };
    let frac: u64 = dist / 60;
    proof {
        lemma_mul_scaled_le(c, (SCALE - frac) as u64);
    }
    let x: u64 = mul_scaled(c, SCALE - frac);
    let m: u64 = v - c;
    if sector == 0 { (c + m, x + m, m) }
    else if sector == 1 { (x + m, c + m, m) }
    else if sector == 2 { (m, c + m, x + m) }
    else if sector == 3 { (m, x + m, c + m) }
    else if sector == 4 { (x + m, m, c + m) }
    else { (c + m, m, x + m) }
}

} // verus!
