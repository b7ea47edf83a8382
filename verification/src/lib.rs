//! Audio bar-graph visualiser core: spectrum grouping, temporal smoothing,
//! pitch/chroma analysis and hue-vector colour mapping.
//!
//! All intensities are carried as fixed-point values in micro-units:
//! the integer `1_000_000` stands for the real value `1.0`. This keeps the
//! whole analysis pipeline in exact integer arithmetic.

use vstd::prelude::*;

mod bars;
mod errors;
mod fixed;
mod colour;
mod smoothing;
mod spectra;
mod visualiser;

pub use bars::{Bars, GroupingStrategy};
pub use colour::{atan2_deg, hsv_to_rgb, ChromagramColour, ColourMapper, Rgba, StaticColour};
pub use errors::VizError;
pub use smoothing::SmoothingStrategy;
pub use spectra::{
    chroma_index_to_note, dominant_frequency, frequency_to_harmonic_product_spectrum,
    frequency_to_pitch_spectrum, get_n_largest_indices, normalise_chromagram,
    pitch_spectrum_to_chromagram,
};
pub use visualiser::{normalise_bars, Visualiser, VisualiserBuilder};

verus! {

/// Fixed-point scale: this many micro-units make up the real value 1.0.
pub const SCALE: u64 = 1_000_000;

/// Largest spectrum magnitude the pipeline accepts, in micro-units.
/// Keeping magnitudes under this bound rules out overflow in sums and blends.
pub const MAX_MAGNITUDE: u64 = 0x1000_0000_0000;

/// Every value of the sequence is at most `MAX_MAGNITUDE`.
pub open spec fn bounded_values(s: Seq<u64>) -> bool {
    forall|i: int| 0 <= i < s.len() ==> #[trigger] s[i] <= MAX_MAGNITUDE
}

/// The sum of a sequence of intensities, as a mathematical integer.
pub open spec fn seq_sum(s: Seq<u64>) -> int
    decreases s.len(),
{
    if s.len() == 0 {
        0
    } else {
        seq_sum(s.drop_last()) + s.last()
    }
}

/// The largest value in a sequence of intensities, or 0 if it is empty.
pub open spec fn seq_max(s: Seq<u64>) -> int
    decreases s.len(),
{
    if s.len() == 0 {
        0
    } else if s.last() >= seq_max(s.drop_last()) {
        s.last() as int
    } else {
        seq_max(s.drop_last())
    }
}

/// A sum of non-negative values is non-negative and at most `len` times any
/// common bound of the values.
pub proof fn lemma_seq_sum_bounds(s: Seq<u64>, bound: u64)
    requires
        forall|i: int| 0 <= i < s.len() ==> #[trigger] s[i] <= bound,
    ensures
        0 <= seq_sum(s) <= s.len() * bound,
    decreases s.len(),
{
    if s.len() == 0 {
    } else {
        lemma_seq_sum_bounds(s.drop_last(), bound);
        assert((s.len() - 1) * bound + bound == s.len() * bound) by (nonlinear_arith);
    }
}

/// No element exceeds the maximum of its sequence.
pub proof fn lemma_seq_max_ge_element(s: Seq<u64>, i: int)
    requires
        0 <= i < s.len(),
    ensures
        s[i] <= seq_max(s),
    decreases s.len(),
{
    if i < s.len() - 1 {
        lemma_seq_max_ge_element(s.drop_last(), i);
    }
}

} // verus!
