//! Temporal smoothing of the bar vector: asymmetric attack/release
//! exponential filtering, the standard VU-meter ballistics law.

use vstd::prelude::*;
use crate::fixed::{blend, spec_blend};
use crate::{bounded_values, SCALE};

verus! {

/// How bars are smoothed across frames. A closed set of variants, selected
/// at construction time.
pub enum SmoothingStrategy {
    /// Attack blend with `rise` when a bar grows, release blend with `fall`
    /// when it shrinks. Both coefficients are in micro-units, at most `SCALE`.
    RiseFall { rise: u64, fall: u64 },
    /// No smoothing: the previous bars are simply overwritten.
    Off,
}

/// One smoothed bar: `prev*rise + cur*(1-rise)` when the new value rises
/// above the old one, `prev*fall + cur*(1-fall)` otherwise.
pub open spec fn smooth_one(prev: u64, cur: u64, rise: u64, fall: u64) -> u64 {
    if cur > prev {
        spec_blend(prev, cur, rise)
    } else {
        spec_blend(prev, cur, fall)
    }
}

/// Blends `current` into `previous` in place, element-wise, choosing the
/// attack or release coefficient per bar.
fn rise_fall_smoothing(previous: &mut Vec<u64>, current: &Vec<u64>, rise: u64, fall: u64)
    requires
        old(previous)@.len() == current@.len(),
        rise <= SCALE,
        fall <= SCALE,
    ensures
        final(previous)@.len() == old(previous)@.len(),
        forall|i: int| 0 <= i < final(previous)@.len() ==> #[trigger] final(previous)@[i]
            == smooth_one(old(previous)@[i], current@[i], rise, fall),
        bounded_values(old(previous)@) && bounded_values(current@)
            ==> bounded_values(final(previous)@),
{
    let mut i: usize = 0;
    while i < current.len()
        invariant
            previous@.len() == current@.len(),
            i <= current@.len(),
            rise <= SCALE,
            fall <= SCALE,
            forall|k: int| 0 <= k < i as int ==> #[trigger] previous@[k]
                == smooth_one(old(previous)@[k], current@[k], rise, fall),
            forall|k: int| i as int <= k < previous@.len()
                ==> #[trigger] previous@[k] == old(previous)@[k],
            forall|k: int| 0 <= k < i as int
                ==> previous@[k] <= old(previous)@[k] || previous@[k] <= current@[k],
        decreases current@.len() - i,
    {
        let p = previous[i];
        let c = current[i];
        let v = if c > p {
            blend(p, c, rise)
        } else {
            blend(p, c, fall)
        };
        previous.set(i, v);
        i = i + 1;
    }
    proof {
        if bounded_values(old(previous)@) && bounded_values(current@) {
            assert forall|k: int| 0 <= k < previous@.len()
                implies #[trigger] previous@[k] <= crate::MAX_MAGNITUDE by {
                assert(old(previous)@[k] <= crate::MAX_MAGNITUDE);
                assert(current@[k] <= crate::MAX_MAGNITUDE);
            }
        }
    }
}

impl SmoothingStrategy {
    /// A valid configuration: coefficients lie in `[0, 1]`.
    pub open spec fn wf(&self) -> bool {
        match *self {
            SmoothingStrategy::RiseFall { rise, fall } => rise <= SCALE && fall <= SCALE,
            SmoothingStrategy::Off => true,
        }
    }

    /// Applies this strategy in place: RiseFall blends element-wise with
    /// asymmetric attack/release coefficients, Off overwrites the previous
    /// bars with the current ones.
    pub fn smooth(&self, previous: &mut Vec<u64>, current: &Vec<u64>)
        requires
            self.wf(),
            old(previous)@.len() == current@.len(),
        ensures
            final(previous)@.len() == current@.len(),
            forall|i: int| 0 <= i < current@.len() ==> #[trigger] final(previous)@[i]
                == match *self {
                    SmoothingStrategy::RiseFall { rise, fall } =>
                        smooth_one(old(previous)@[i], current@[i], rise, fall),
                    SmoothingStrategy::Off => current@[i],
                },
            bounded_values(old(previous)@) && bounded_values(current@)
                ==> bounded_values(final(previous)@),
    {
        match self {
            SmoothingStrategy::RiseFall { rise, fall } => {
                rise_fall_smoothing(previous, current, *rise, *fall);
            },
            SmoothingStrategy::Off => {
                let mut i: usize = 0;
                while i < current.len()
                    invariant
                        previous@.len() == current@.len(),
                        i <= current@.len(),
                        forall|k: int| 0 <= k < i as int
                            ==> #[trigger] previous@[k] == current@[k],
                    decreases current@.len() - i,
                {
                    previous.set(i, current[i]);
                    i = i + 1;
                }
            },
        }
    }
}

} // verus!
