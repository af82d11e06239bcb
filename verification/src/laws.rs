//! What holds of the generator as a whole.
use vstd::prelude::*;
use crate::bank::{
    bank_after, block_slot, kind_of, left_sample, left_signals, right_sample, right_signals,
    valid_bank, BankModel,
};
use crate::mixer::{lemma_mix_silent, mix, sample_of};
use crate::oscillator::{
    advance, advance_by, contribution, lemma_advance_valid, valid_oscillator, OscModel,
};
use crate::rotor::{lemma_unit_disc_bounds, rotor_product, ONE};
use crate::units::{trunc_div, MILLI, TURN};
use crate::signal::describe;
use crate::waveform::{triangle_falling, triangle_rising, triangle_value, Waveform};

verus! {

/// A valid oscillator is valid after any number of samples.
pub proof fn lemma_advance_by_valid(o: OscModel, kind: Waveform, n: nat)
    requires
        valid_oscillator(o),
    ensures
        valid_oscillator(advance_by(o, kind, n)),
    decreases n,
{
    if n > 0 {
        lemma_advance_by_valid(o, kind, (n - 1) as nat);
        lemma_advance_valid(advance_by(o, kind, (n - 1) as nat), kind);
    }
}

/// The wrap invariant: a phase that lies less than a full period from zero
/// still does so after the oscillator has advanced, however often.
pub proof fn lemma_phase_stays_wrapped(o: OscModel, kind: Waveform, n: nat)
    requires
        valid_oscillator(o),
        -TURN < o.phase < TURN,
    ensures
        -TURN < advance_by(o, kind, n).phase < TURN,
    decreases n,
{
    if n > 0 {
        lemma_phase_stays_wrapped(o, kind, (n - 1) as nat);
        lemma_advance_by_valid(o, kind, (n - 1) as nat);
    }
}

/// A signal described with a phase of less than a full turn, in either
/// direction, starts with its phase less than a full period from zero.
pub proof fn lemma_described_phase_wrapped(
    frequency: int,
    degrees: int,
    dutycycle: int,
    amplitude: int,
)
    requires
        -360_000 < degrees < 360_000,
    ensures
        describe(frequency, degrees, dutycycle, amplitude) matches Ok(s) ==> -TURN < s.phase
            < TURN,
{
}

/// Superposition: what two groups of oscillators add to a channel together
/// is the sum of what each group adds.
pub proof fn lemma_superposition(a: Seq<OscModel>, b: Seq<OscModel>, kind: Waveform)
    ensures
        mix(a + b, kind) == mix(a, kind) + mix(b, kind),
    decreases b.len(),
{
    if b.len() == 0 {
        assert(a + b =~= a);
    } else {
        assert((a + b).drop_last() =~= a + b.drop_last());
        assert((a + b).last() == b.last());
        lemma_superposition(a, b.drop_last(), kind);
    }
}

/// One oscillator alone adds its own contribution.
pub proof fn lemma_mix_alone(o: OscModel, kind: Waveform)
    ensures
        mix(seq![o], kind) == contribution(o, kind),
{
    assert(seq![o].drop_last() =~= Seq::<OscModel>::empty());
    assert(mix(Seq::<OscModel>::empty(), kind) == 0);
}

/// No cross-coupling: within a bank every oscillator runs as it would
/// alone, and the bank keeps its shape.
pub proof fn lemma_oscillators_independent(b: BankModel, n: nat)
    ensures
        bank_after(b, n).sig.len() == b.sig.len(),
        bank_after(b, n).leftsiglen == b.leftsiglen,
        bank_after(b, n).lefttype == b.lefttype,
        bank_after(b, n).righttype == b.righttype,
        forall|i: int|
            0 <= i < b.sig.len() ==> (#[trigger] bank_after(b, n).sig[i]) == advance_by(
                b.sig[i],
                kind_of(b, i),
                n,
            ),
    decreases n,
{
    if n > 0 {
        lemma_oscillators_independent(b, (n - 1) as nat);
    }
}

/// A valid bank is valid after any number of frames.
pub proof fn lemma_bank_after_valid(b: BankModel, n: nat)
    requires
        valid_bank(b),
    ensures
        valid_bank(bank_after(b, n)),
{
    lemma_oscillators_independent(b, n);
    assert forall|i: int| 0 <= i < b.sig.len() implies valid_oscillator(
        #[trigger] bank_after(b, n).sig[i],
    ) by {
        lemma_advance_by_valid(b.sig[i], kind_of(b, i), n);
    }
}

/// A silent left channel gives zero in every frame, whatever its
/// oscillators are.
pub proof fn lemma_silent_left(b: BankModel, n: nat)
    requires
        b.lefttype == Waveform::Nowave,
    ensures
        left_sample(bank_after(b, n)) == 0,
{
    lemma_oscillators_independent(b, n);
    lemma_mix_silent(left_signals(bank_after(b, n)));
}

/// A silent right channel gives zero in every frame, whatever its
/// oscillators are.
pub proof fn lemma_silent_right(b: BankModel, n: nat)
    requires
        b.righttype == Waveform::Nowave,
    ensures
        right_sample(bank_after(b, n)) == 0,
{
    lemma_oscillators_independent(b, n);
    lemma_mix_silent(right_signals(bank_after(b, n)));
}

/// In a block, every slot of a silent channel holds zero.
pub proof fn lemma_silent_slots(b: BankModel, j: int)
    requires
        0 <= j,
    ensures
        b.lefttype == Waveform::Nowave && j % 2 == 0 ==> block_slot(b, j) == 0,
        b.righttype == Waveform::Nowave && j % 2 == 1 ==> block_slot(b, j) == 0,
{
    if b.lefttype == Waveform::Nowave {
        lemma_silent_left(b, (j / 2) as nat);
    }
    if b.righttype == Waveform::Nowave {
        lemma_silent_right(b, (j / 2) as nat);
    }
}

/// A sine never exceeds its amplitude.
pub proof fn lemma_sine_within_amplitude(o: OscModel)
    requires
        valid_oscillator(o),
    ensures
        -o.amplitude <= contribution(o, Waveform::Sine) <= o.amplitude,
{
    lemma_unit_disc_bounds(o.rotor.0, o.rotor.1);
    let a = o.amplitude;
    let re = o.rotor.0;
    assert(-(a * ONE) <= a * re <= a * ONE) by (nonlinear_arith)
        requires
            0 <= a,
            -ONE <= re <= ONE,
    ;
    let x = a * re;
    if x >= 0 {
        assert(x / (ONE as int) <= a) by (nonlinear_arith)
            requires
                0 <= x <= a * ONE,
                ONE > 0,
        ;
        assert(0 <= x / (ONE as int)) by (nonlinear_arith)
            requires
                0 <= x,
                ONE > 0,
        ;
    } else {
        assert(0 <= (-x) / (ONE as int) <= a) by (nonlinear_arith)
            requires
                0 <= -x <= a * ONE,
                ONE > 0,
        ;
    }
}

/// For a dividend that is not negative, the quotient times the divisor is
/// the multiple of the divisor next below the dividend.
proof fn lemma_div_brackets(a: int, b: int)
    requires
        0 <= a,
        0 < b,
    ensures
        0 <= a / b,
        (a / b) * b <= a < (a / b) * b + b,
{
    assert(0 <= a / b && (a / b) * b <= a < (a / b) * b + b) by (nonlinear_arith)
        requires
            0 <= a,
            0 < b,
    ;
}

/// Rounding toward zero keeps the order of two dividends, and parts their
/// quotients by less than one more than the dividends lie apart.
pub proof fn lemma_trunc_div_step(x: int, y: int, b: int)
    requires
        0 < b,
        x <= y,
    ensures
        trunc_div(x, b) <= trunc_div(y, b),
        (trunc_div(y, b) - trunc_div(x, b)) * b < (y - x) + b,
{
    let qx = trunc_div(x, b);
    let qy = trunc_div(y, b);
    if x >= 0 {
        lemma_div_brackets(x, b);
        lemma_div_brackets(y, b);
        assert(qx <= qy && (qy - qx) * b < (y - x) + b) by (nonlinear_arith)
            requires
                0 < b,
                qx * b <= x < qx * b + b,
                qy * b <= y < qy * b + b,
                x <= y,
        ;
    } else if y < 0 {
        let mx = (-x) / b;
        let my = (-y) / b;
        lemma_div_brackets(-x, b);
        lemma_div_brackets(-y, b);
        assert(my <= mx && (mx - my) * b < (y - x) + b) by (nonlinear_arith)
            requires
                0 < b,
                mx * b <= -x < mx * b + b,
                my * b <= -y < my * b + b,
                x <= y,
        ;
    } else {
        let mx = (-x) / b;
        lemma_div_brackets(-x, b);
        lemma_div_brackets(y, b);
        assert((qy + mx) * b < (y - x) + b) by (nonlinear_arith)
            requires
                0 < b,
                mx * b <= -x,
                qy * b <= y,
        ;
    }
}

/// The phase next to `phase` within the period, which ends where it begins.
pub open spec fn next_phase(phase: int) -> int {
    if phase + 1 == TURN {
        0
    } else {
        phase + 1
    }
}

/// The triangle reaches exactly its amplitude at the duty threshold and
/// exactly the negative amplitude at phase zero, and stays between the two
/// throughout the period.
pub proof fn lemma_triangle_peak_and_trough(phase: int, duty: int, amplitude: int)
    requires
        0 < duty < TURN,
        0 <= amplitude,
        0 <= phase < TURN,
    ensures
        triangle_value(duty, duty, amplitude) == amplitude,
        triangle_value(0, duty, amplitude) == -amplitude,
        -amplitude <= triangle_value(phase, duty, amplitude) <= amplitude,
{
    let a = amplitude;
    lemma_flanks_meet(duty, amplitude);
    if phase < duty {
        let span = 2 * phase - duty;
        assert(-(a * duty) <= a * span <= a * duty) by (nonlinear_arith)
            requires
                0 <= a,
                -duty <= span <= duty,
        ;
        lemma_trunc_div_step(-(a * duty), a * span, duty);
        lemma_trunc_div_step(a * span, a * duty, duty);
    } else {
        let flank = TURN - duty;
        let span = TURN + duty - 2 * phase;
        assert(-(a * flank) <= a * span <= a * flank) by (nonlinear_arith)
            requires
                0 <= a,
                -flank <= span <= flank,
        ;
        lemma_trunc_div_step(-(a * flank), a * span, flank);
        lemma_trunc_div_step(a * span, a * flank, flank);
    }
}

/// Both flanks give the amplitude at the duty threshold; the rising flank
/// gives the negative amplitude at zero, as the falling flank does at a
/// full period.
proof fn lemma_flanks_meet(duty: int, amplitude: int)
    requires
        0 < duty < TURN,
        0 <= amplitude,
    ensures
        triangle_rising(duty, duty, amplitude) == amplitude,
        triangle_falling(duty, duty, amplitude) == amplitude,
        triangle_rising(0, duty, amplitude) == -amplitude,
        triangle_falling(TURN as int, duty, amplitude) == -amplitude,
        trunc_div(amplitude * duty, duty) == amplitude,
        trunc_div(-(amplitude * duty), duty) == -amplitude,
        trunc_div(amplitude * (TURN - duty), TURN - duty) == amplitude,
        trunc_div(-(amplitude * (TURN - duty)), TURN - duty) == -amplitude,
{
    let a = amplitude;
    lemma_quotient_of_multiple(a, duty);
    lemma_quotient_of_multiple(a, TURN - duty);
    assert(a * (2 * duty - duty) == a * duty) by (nonlinear_arith);
    assert(a * (TURN + duty - 2 * duty) == a * (TURN - duty)) by (nonlinear_arith);
    assert(a * (2 * 0 - duty) == -(a * duty)) by (nonlinear_arith);
    assert(a * (TURN + duty - 2 * TURN) == -(a * (TURN - duty))) by (nonlinear_arith);
}

/// A multiple of the divisor, of either sign, is divided exactly.
proof fn lemma_quotient_of_multiple(a: int, b: int)
    requires
        0 <= a,
        0 < b,
    ensures
        trunc_div(a * b, b) == a,
        trunc_div(-(a * b), b) == -a,
{
    assert(0 <= a * b) by (nonlinear_arith)
        requires
            0 <= a,
            0 < b,
    ;
    assert((a * b) / b == a) by (nonlinear_arith)
        requires
            0 < b,
    ;
}

/// The triangle has no jump: its two flanks meet at the duty threshold,
/// where both give the amplitude, and where the period ends and begins,
/// where both give the negative amplitude; and from any phase of the period
/// to the next the value rises, on the rising flank, or falls, on the
/// falling flank, by less than one step more than the flank's slope,
/// `2 * amplitude` over the flank's length.
pub proof fn lemma_triangle_continuous(phase: int, duty: int, amplitude: int)
    requires
        0 < duty < TURN,
        0 <= amplitude,
        0 <= phase < TURN,
    ensures
        triangle_rising(duty, duty, amplitude) == triangle_falling(duty, duty, amplitude),
        triangle_falling(TURN as int, duty, amplitude) == triangle_rising(0, duty, amplitude),
        ({
            let rise = triangle_value(next_phase(phase), duty, amplitude) - triangle_value(
                phase,
                duty,
                amplitude,
            );
            if phase < duty {
                0 <= rise && rise * duty < 2 * amplitude + duty
            } else {
                rise <= 0 && (-rise) * (TURN - duty) < 2 * amplitude + (TURN - duty)
            }
        }),
{
    let a = amplitude;
    let flank = TURN - duty;
    lemma_flanks_meet(duty, amplitude);
    if phase < duty {
        // The value at the next phase is what the rising flank would give
        // there, also where the next phase is the threshold itself.
        assert(triangle_value(next_phase(phase), duty, amplitude) == triangle_rising(
            phase + 1,
            duty,
            amplitude,
        ));
        let x = a * (2 * phase - duty);
        let y = a * (2 * (phase + 1) - duty);
        assert(y == x + 2 * a) by (nonlinear_arith)
            requires
                x == a * (2 * phase - duty),
                y == a * (2 * (phase + 1) - duty),
        ;
        lemma_trunc_div_step(x, y, duty);
    } else {
        // The value at the next phase is what the falling flank would give
        // there, also where the period ends.
        assert(triangle_value(next_phase(phase), duty, amplitude) == triangle_falling(
            phase + 1,
            duty,
            amplitude,
        ));
        let x = a * (TURN + duty - 2 * (phase + 1));
        let y = a * (TURN + duty - 2 * phase);
        assert(y == x + 2 * a) by (nonlinear_arith)
            requires
                x == a * (TURN + duty - 2 * (phase + 1)),
                y == a * (TURN + duty - 2 * phase),
        ;
        lemma_trunc_div_step(x, y, flank);
    }
}

/// How many of the first `n` samples of `o`, run as a square wave, stand
/// below the duty threshold, where the square gives its positive level.
pub open spec fn high_samples(o: OscModel, n: nat) -> nat
    decreases n,
{
    if n == 0 {
        0
    } else {
        let at = advance_by(o, Waveform::Square, (n - 1) as nat);
        if at.phase < o.dutycyclephase {
            high_samples(o, (n - 1) as nat) + 1
        } else {
            high_samples(o, (n - 1) as nat)
        }
    }
}

/// Until its phase reaches a full period, an oscillator that began at a
/// phase that is not negative has advanced by its phase step each sample.
proof fn lemma_phase_before_wrap(o: OscModel, j: nat)
    requires
        valid_oscillator(o),
        0 <= o.phase,
        o.phase + j * o.phasestep < TURN,
    ensures
        advance_by(o, Waveform::Square, j).phase == o.phase + j * o.phasestep,
        advance_by(o, Waveform::Square, j).phasestep == o.phasestep,
    decreases j,
{
    if j > 0 {
        let step = o.phasestep;
        assert(j * step == (j - 1) * step + step) by (nonlinear_arith);
        assert(0 <= (j - 1) * step) by (nonlinear_arith)
            requires
                j >= 1,
                0 <= step,
        ;
        lemma_phase_before_wrap(o, (j - 1) as nat);
        let before = advance_by(o, Waveform::Square, (j - 1) as nat);
        assert(advance_by(o, Waveform::Square, j) == advance(before, Waveform::Square));
    } else {
        assert(j * o.phasestep == 0) by (nonlinear_arith)
            requires
                j == 0,
        ;
    }
}

/// Of the first `k` samples, taken before the phase reaches a full period,
/// either all stand below the duty threshold, or those do that come before
/// the first which does not.
proof fn lemma_high_samples(o: OscModel, k: nat)
    requires
        valid_oscillator(o),
        0 <= o.phase,
        0 < o.phasestep,
        k == 0 || o.phase + (k - 1) * o.phasestep < TURN,
    ensures
        ({
            let h = high_samples(o, k);
            ||| (h == k && (k == 0 || o.phase + (k - 1) * o.phasestep < o.dutycyclephase))
            ||| (h < k && o.dutycyclephase <= o.phase + h * o.phasestep && (h == 0 || o.phase + (h
                - 1) * o.phasestep < o.dutycyclephase))
        }),
    decreases k,
{
    if k > 0 {
        let step = o.phasestep;
        let earlier = (k - 1) as nat;
        if earlier > 0 {
            assert((k - 1) * step == (k - 2) * step + step) by (nonlinear_arith);
        }
        lemma_high_samples(o, earlier);
        lemma_phase_before_wrap(o, earlier);
        let h = high_samples(o, earlier);
        if h < earlier {
            assert(h * step <= (k - 1) * step) by (nonlinear_arith)
                requires
                    h <= k - 1,
                    0 < step,
            ;
        }
    }
}

/// The duty cycle of the square: over the samples of one period, from the
/// first after the phase has wrapped to the last before it wraps again,
/// the number of samples at the positive level differs by less than one
/// from the duty threshold's share of the period in samples, which is the
/// threshold over the phase step.
pub proof fn lemma_square_duty(o: OscModel, n: nat)
    requires
        valid_oscillator(o),
        0 < o.phasestep,
        0 <= o.phase < o.phasestep,
        o.phase + (n - 1) * o.phasestep < TURN <= o.phase + n * o.phasestep,
    ensures
        -o.phasestep < high_samples(o, n) * o.phasestep - o.dutycyclephase < o.phasestep,
{
    let step = o.phasestep;
    let h = high_samples(o, n);
    assert(n > 0) by (nonlinear_arith)
        requires
            o.phase < step,
            2 * step <= TURN,
            TURN <= o.phase + n * step,
            n >= 0,
    ;
    lemma_high_samples(o, n);
    assert(n * step == (n - 1) * step + step) by (nonlinear_arith);
    if h > 0 {
        assert(h * step == (h - 1) * step + step) by (nonlinear_arith);
    } else {
        assert(h * step == 0) by (nonlinear_arith)
            requires
                h == 0,
        ;
    }
}

/// The point that `start` has reached after `n` turns by `step`.
pub open spec fn turned(start: (int, int), step: (int, int), n: nat) -> (int, int)
    decreases n,
{
    if n == 0 {
        start
    } else {
        rotor_product(turned(start, step, (n - 1) as nat), step)
    }
}

/// The sine at sample `n` is the amplitude times the real coordinate of the
/// starting point turned `n` times by the step; its angular phase stays
/// where it was.
pub proof fn lemma_sine_turns_rotor(o: OscModel, n: nat)
    ensures
        advance_by(o, Waveform::Sine, n) == (OscModel {
            rotor: turned(o.rotor, o.rotorstep, n),
            ..o
        }),
    decreases n,
{
    if n > 0 {
        lemma_sine_turns_rotor(o, (n - 1) as nat);
    }
}

/// Each coordinate of a rounded product lies less than one unit from the
/// exact product of the two complex numbers, on the side of zero.
pub proof fn lemma_product_rounding(a: (int, int), b: (int, int))
    ensures
        ({
            let re = a.0 * b.0 - a.1 * b.1;
            let im = a.0 * b.1 + a.1 * b.0;
            let p = rotor_product(a, b);
            &&& (re >= 0 ==> re - ONE < p.0 * ONE <= re)
            &&& (re < 0 ==> re <= p.0 * ONE < re + ONE)
            &&& (im >= 0 ==> im - ONE < p.1 * ONE <= im)
            &&& (im < 0 ==> im <= p.1 * ONE < im + ONE)
        }),
{
    let re = a.0 * b.0 - a.1 * b.1;
    let im = a.0 * b.1 + a.1 * b.0;
    if re >= 0 {
        lemma_div_brackets(re, ONE as int);
    } else {
        lemma_div_brackets(-re, ONE as int);
        let m = (-re) / (ONE as int);
        assert((-m) * ONE == -(m * ONE)) by (nonlinear_arith);
    }
    if im >= 0 {
        lemma_div_brackets(im, ONE as int);
    } else {
        lemma_div_brackets(-im, ONE as int);
        let m = (-im) / (ONE as int);
        assert((-m) * ONE == -(m * ONE)) by (nonlinear_arith);
    }
}

/// The amplitudes of `oscs`, added up.
pub open spec fn amplitude_sum(oscs: Seq<OscModel>) -> int
    decreases oscs.len(),
{
    if oscs.len() == 0 {
        0
    } else {
        amplitude_sum(oscs.drop_last()) + oscs.last().amplitude
    }
}

/// Within its period no waveform exceeds its amplitude: a channel whose
/// oscillators have their phases within the period stays within the sum of
/// their amplitudes. For the sine and the square, and for a silent channel,
/// this holds at any phase.
pub proof fn lemma_mix_within_amplitudes(oscs: Seq<OscModel>, kind: Waveform)
    requires
        forall|i: int| 0 <= i < oscs.len() ==> valid_oscillator(#[trigger] oscs[i]),
        kind == Waveform::Triangle ==> forall|i: int|
            0 <= i < oscs.len() ==> 0 <= (#[trigger] oscs[i]).phase < TURN,
    ensures
        -amplitude_sum(oscs) <= mix(oscs, kind) <= amplitude_sum(oscs),
    decreases oscs.len(),
{
    if oscs.len() > 0 {
        let o = oscs.last();
        let rest = oscs.drop_last();
        assert forall|i: int| 0 <= i < rest.len() implies valid_oscillator(
            #[trigger] rest[i],
        ) by {
            assert(rest[i] == oscs[i]);
        }
        if kind == Waveform::Triangle {
            assert forall|i: int| 0 <= i < rest.len() implies 0 <= (#[trigger] rest[i]).phase
                < TURN by {
                assert(rest[i] == oscs[i]);
            }
        }
        lemma_mix_within_amplitudes(rest, kind);
        assert(valid_oscillator(oscs[oscs.len() - 1]));
        match kind {
            Waveform::Sine => {
                lemma_sine_within_amplitude(o);
            },
            Waveform::Square => {},
            Waveform::Triangle => {
                assert(0 <= oscs[oscs.len() - 1].phase < TURN);
                lemma_triangle_peak_and_trough(o.phase, o.dutycyclephase, o.amplitude);
            },
            Waveform::Nowave => {},
        }
    }
}

/// A channel whose amplitudes add up to no more than the largest sample,
/// and whose phases lie within the period, is never clipped: its sample is
/// its sum's whole part.
pub proof fn lemma_no_clipping(oscs: Seq<OscModel>, kind: Waveform)
    requires
        forall|i: int| 0 <= i < oscs.len() ==> valid_oscillator(#[trigger] oscs[i]),
        kind == Waveform::Triangle ==> forall|i: int|
            0 <= i < oscs.len() ==> 0 <= (#[trigger] oscs[i]).phase < TURN,
        amplitude_sum(oscs) <= i16::MAX * MILLI,
    ensures
        sample_of(mix(oscs, kind)) == trunc_div(mix(oscs, kind), MILLI as int),
{
    lemma_mix_within_amplitudes(oscs, kind);
    lemma_trunc_div_step(-(i16::MAX * MILLI), mix(oscs, kind), MILLI as int);
    lemma_trunc_div_step(mix(oscs, kind), i16::MAX * MILLI, MILLI as int);
}

} // verus!
