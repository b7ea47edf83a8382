//! Error taxonomy of the pipeline.
//!
//! Configuration errors are fatal at construction: the visualiser must not
//! start with an invalid configuration. Transient errors are per-frame and
//! recoverable: the caller skips the frame and keeps the previous display.

use vstd::prelude::*;

verus! {

/// Everything that can go wrong in the analysis pipeline.
#[derive(Clone, Copy, Debug, PartialEq, Eq, Structural)]
pub enum VizError {
    /// A grouping strategy was configured with a bar count of zero.
    ZeroBarCount,
    /// A gamma-corrected grouping was configured with gamma of zero.
    InvalidGamma,
    /// A smoothing coefficient lies outside `[0, 1]`.
    InvalidSmoothing,
    /// A bar range holds no spectrum bin at all.
    EmptyRange,
    /// The spectrum is shorter than a previously built range set expects.
    SpectrumMismatch,
}

impl VizError {
    /// True of the errors that only an invalid construction-time
    /// configuration can produce.
    pub fn is_configuration(&self) -> (r: bool)
        ensures
            r == (*self == VizError::ZeroBarCount || *self == VizError::InvalidGamma
                || *self == VizError::InvalidSmoothing || *self == VizError::EmptyRange),
    {
        match self {
            VizError::ZeroBarCount => true,
            VizError::InvalidGamma => true,
            VizError::InvalidSmoothing => true,
            VizError::EmptyRange => true,
            VizError::SpectrumMismatch => false,
        }
    }

    /// True of the errors that a caller recovers from by skipping the frame.
    pub fn is_transient(&self) -> (r: bool)
        ensures
            r == (*self == VizError::SpectrumMismatch),
    {
        match self {
            VizError::SpectrumMismatch => true,
            _ => false,
        }
    }
}

} // verus!
