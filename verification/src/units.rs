//! Units of the fixed-point arithmetic that the generator computes in.
//!
//! Every configured quantity is held as a whole number of thousandths of
//! its unit. Angles are held as a whole number of ticks, of
//! which `TURN` make one full period, so that a phase step, a phase offset
//! given in degrees and a duty cycle given in percent are all whole numbers.
use vstd::prelude::*;

verus! {

/// Frames per second that the phase steps are derived for.
pub const SAMPLE_RATE: i64 = 48_000;

/// Parts of one unit in which frequencies, degrees, percentages and
/// amplitudes are held.
pub const MILLI: i64 = 1_000;

/// Angular ticks in one full period.
pub const TURN: i64 = 144_000_000;

/// Ticks of phase advanced per sample for each thousandth of a hertz:
/// `TURN / (SAMPLE_RATE * MILLI)`.
pub const TICKS_PER_MILLIHERTZ: i64 = 3;

/// Ticks in one thousandth of a degree: `TURN / (360 * MILLI)`.
pub const TICKS_PER_MILLIDEGREE: i64 = 400;

/// Ticks in one thousandth of a percent of a period: `TURN / (100 * MILLI)`.
pub const TICKS_PER_MILLIPERCENT: i64 = 1_440;

/// Highest frequency accepted, in thousandths of a hertz (24000 Hz).
pub const MAX_FREQUENCY: i64 = 24_000_000;

/// Highest amplitude accepted, in thousandths of a sample step (32767).
pub const MAX_AMPLITUDE: i64 = 32_767_000;

/// Largest magnitude, in thousandths, that is told apart: every number
/// beyond it is read as one thousandth more than it.
pub const MAX_MILLI: i64 = 999_999_999_999_999;

/// Largest magnitude of a phase, in ticks: `MAX_MILLI` thousandths of a
/// degree.
pub const MAX_PHASE: i64 = 399_999_999_999_999_600;

/// Quotient of `a` by a positive `b`, rounded toward zero.
pub open spec fn trunc_div(a: int, b: int) -> int {
    if a >= 0 {
        a / b
    } else {
        -((-a) / b)
    }
}

/// The constants agree with one another: the three conversion factors are
/// exact, and the highest frequency advances half a period per sample.
pub proof fn lemma_units_consistent()
    ensures
        TICKS_PER_MILLIHERTZ * SAMPLE_RATE * MILLI == TURN,
        TICKS_PER_MILLIDEGREE * 360 * MILLI == TURN,
        TICKS_PER_MILLIPERCENT * 100 * MILLI == TURN,
        TICKS_PER_MILLIHERTZ * MAX_FREQUENCY * 2 == TURN,
        TICKS_PER_MILLIDEGREE * MAX_MILLI == MAX_PHASE,
{
}

} // verus!
