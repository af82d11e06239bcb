//! Mixing: the sum of what the oscillators of one channel contribute, and
//! the 16-bit sample made of it.
use vstd::prelude::*;
use crate::oscillator::{contribution, valid_oscillator, OscModel};
use crate::rotor::{lemma_unit_disc_bounds, ONE};
use crate::units::{trunc_div, MAX_AMPLITUDE, MAX_PHASE, MILLI, TURN};
use crate::waveform::Waveform;

verus! {

/// No oscillator contributes more than this in magnitude, in thousandths of
/// a sample step: `MAX_AMPLITUDE * (2 * MAX_PHASE + 2 * TURN)`.
pub const MAX_CONTRIBUTION: i128 = 26_213_600_009_436_869_786_400_000;

/// The sum of what each oscillator of `oscs` contributes under `kind`.
pub open spec fn mix(oscs: Seq<OscModel>, kind: Waveform) -> int
    decreases oscs.len(),
{
    if oscs.len() == 0 {
        0
    } else {
        mix(oscs.drop_last(), kind) + contribution(oscs.last(), kind)
    }
}

/// The 16-bit sample for a sum in thousandths of a sample step: the sum's
/// whole part, rounded toward zero and kept within the range of `i16`.
pub open spec fn sample_of(sum: int) -> int {
    let whole = trunc_div(sum, MILLI as int);
    if whole < i16::MIN {
        i16::MIN as int
    } else if whole > i16::MAX {
        i16::MAX as int
    } else {
        whole
    }
}

/// A quotient rounded toward zero is no longer than its dividend.
pub proof fn lemma_trunc_div_bound(a: int, d: int, bound: int)
    requires
        d >= 1,
        -bound <= a <= bound,
    ensures
        -bound <= trunc_div(a, d) <= bound,
{
    if a >= 0 {
        assert(0 <= a / d <= a) by (nonlinear_arith)
            requires
                a >= 0,
                d >= 1,
        ;
    } else {
        assert(0 <= (-a) / d <= -a) by (nonlinear_arith)
            requires
                -a >= 0,
                d >= 1,
        ;
    }
}

/// A valid oscillator contributes at most `MAX_CONTRIBUTION` in magnitude.
pub proof fn lemma_contribution_bound(o: OscModel, kind: Waveform)
    requires
        valid_oscillator(o),
    ensures
        -MAX_CONTRIBUTION <= contribution(o, kind) <= MAX_CONTRIBUTION,
{
    let a = o.amplitude;
    match kind {
        Waveform::Sine => {
            lemma_unit_disc_bounds(o.rotor.0, o.rotor.1);
            let re = o.rotor.0;
            assert(-MAX_AMPLITUDE * ONE <= a * re <= MAX_AMPLITUDE * ONE) by (nonlinear_arith)
                requires
                    0 <= a <= MAX_AMPLITUDE,
                    -ONE <= re <= ONE,
            ;
            lemma_trunc_div_bound(a * re, ONE as int, MAX_AMPLITUDE * ONE);
        },
        Waveform::Square => {},
        Waveform::Triangle => {
            let limit = 2 * MAX_PHASE + 2 * TURN;
            if o.phase < o.dutycyclephase {
                let span = 2 * o.phase - o.dutycyclephase;
                assert(-MAX_AMPLITUDE * limit <= a * span <= MAX_AMPLITUDE * limit)
                    by (nonlinear_arith)
                    requires
                        0 <= a <= MAX_AMPLITUDE,
                        -limit <= span <= limit,
                ;
                lemma_trunc_div_bound(a * span, o.dutycyclephase, MAX_AMPLITUDE * limit);
            } else {
                let span = TURN + o.dutycyclephase - 2 * o.phase;
                assert(-MAX_AMPLITUDE * limit <= a * span <= MAX_AMPLITUDE * limit)
                    by (nonlinear_arith)
                    requires
                        0 <= a <= MAX_AMPLITUDE,
                        -limit <= span <= limit,
                ;
                lemma_trunc_div_bound(a * span, TURN - o.dutycyclephase, MAX_AMPLITUDE * limit);
            }
        },
        Waveform::Nowave => {},
    }
}

/// Under `Nowave` the oscillators of a channel add up to zero, whatever
/// they are.
pub proof fn lemma_mix_silent(oscs: Seq<OscModel>)
    ensures
        mix(oscs, Waveform::Nowave) == 0,
    decreases oscs.len(),
{
    if oscs.len() > 0 {
        lemma_mix_silent(oscs.drop_last());
    }
}

/// The 16-bit sample for a sum in thousandths of a sample step.
pub fn to_sample(sum: i128) -> (sample: i16)
    ensures
        sample == sample_of(sum as int),
{
    let whole: i128 = sum / (MILLI as i128);
    if whole < i16::MIN as i128 {
        i16::MIN
    } else if whole > i16::MAX as i128 {
        i16::MAX
    } else {
        whole as i16
    }
}

} // verus!
