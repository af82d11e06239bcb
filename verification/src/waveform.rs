//! The waveform kinds and the value of each at a given phase.
//!
//! Phases and duty thresholds are in ticks (`TURN` to the period),
//! amplitudes and values in thousandths of a sample step.
use vstd::prelude::*;
use vstd::string::{is_ascii, is_ascii_spec_bytes, StringSliceAdditionalSpecFns};
use crate::rotor::{Rotor, ONE};
use crate::units::{trunc_div, MAX_AMPLITUDE, MAX_PHASE, TURN};

verus! {

/// How every oscillator of one channel is evaluated.
#[derive(Clone, Copy, Debug, PartialEq, Eq, Structural)]
pub enum Waveform {
    Sine,
    Square,
    Triangle,
    /// The channel is silent.
    Nowave,
}

/// The waveform that a label selects: `sine`, `square` or `triangle`; any
/// other label selects none.
pub open spec fn waveform_named(label: Seq<char>) -> Waveform {
    if label == "sine"@ {
        Waveform::Sine
    } else if label == "square"@ {
        Waveform::Square
    } else if label == "triangle"@ {
        Waveform::Triangle
    } else {
        Waveform::Nowave
    }
}

/// Whether `text` holds exactly the bytes of `label`.
fn same_bytes(text: &[u8], label: &[u8]) -> (same: bool)
    ensures
        same <==> text@ == label@,
{
    if text.len() != label.len() {
        return false;
    }
    let mut i: usize = 0;
    while i < text.len()
        invariant
            i <= text@.len() == label@.len(),
            forall|j: int| 0 <= j < i ==> text@[j] == label@[j],
        decreases text@.len() - i,
    {
        if text[i] != label[i] {
            return false;
        }
        i = i + 1;
    }
    assert(text@ =~= label@);
    true
}

/// Two ASCII texts of the same bytes are the same text.
proof fn lemma_ascii_same(a: &str, b: &str)
    requires
        is_ascii(a),
        is_ascii(b),
        a.spec_bytes() == b.spec_bytes(),
    ensures
        a@ == b@,
{
    broadcast use is_ascii_spec_bytes;

    assert(a@.len() == b@.len());
    assert forall|i: int| 0 <= i < a@.len() implies a@[i] == b@[i] by {
        assert(a.spec_bytes()[i] == a@[i] as u8);
        assert(b.spec_bytes()[i] == b@[i] as u8);
        assert('\0' <= a@[i] <= '\u{7f}');
        assert('\0' <= b@[i] <= '\u{7f}');
    }
    assert(a@ =~= b@);
}

/// Decodes the label of a waveform. A label that names none gives `Nowave`:
/// the channel is then silent.
pub fn sigtypedec(sigtypestr: &str) -> (kind: Waveform)
    ensures
        kind == waveform_named(sigtypestr@),
{
    broadcast use is_ascii_spec_bytes;

    proof {
        reveal_strlit("sine");
        reveal_strlit("square");
        reveal_strlit("triangle");
    }
    if !sigtypestr.is_ascii() {
        return Waveform::Nowave;
    }
    let text = sigtypestr.as_bytes();
    if same_bytes(text, "sine".as_bytes()) {
        proof {
            lemma_ascii_same(sigtypestr, "sine");
        }
        Waveform::Sine
    } else if same_bytes(text, "square".as_bytes()) {
        proof {
            lemma_ascii_same(sigtypestr, "square");
        }
        Waveform::Square
    } else if same_bytes(text, "triangle".as_bytes()) {
        proof {
            lemma_ascii_same(sigtypestr, "triangle");
        }
        Waveform::Triangle
    } else {
        Waveform::Nowave
    }
}

/// Square wave: `+amplitude` while the phase is below the duty threshold,
/// `-amplitude` from the threshold on.
pub open spec fn square_value(phase: int, duty: int, amplitude: int) -> int {
    if phase < duty {
        amplitude
    } else {
        -amplitude
    }
}

/// Rising flank of the triangle, `amplitude * (-1 + 2 * phase / duty)`,
/// rounded toward zero.
pub open spec fn triangle_rising(phase: int, duty: int, amplitude: int) -> int {
    trunc_div(amplitude * (2 * phase - duty), duty)
}

/// Falling flank of the triangle,
/// `-amplitude * (-1 + 2 * (phase - duty) / (TURN - duty))`, rounded toward
/// zero.
pub open spec fn triangle_falling(phase: int, duty: int, amplitude: int) -> int {
    trunc_div(amplitude * (TURN + duty - 2 * phase), TURN - duty)
}

/// Triangle wave: the rising flank below the duty threshold, the falling
/// flank from the threshold on.
pub open spec fn triangle_value(phase: int, duty: int, amplitude: int) -> int {
    if phase < duty {
        triangle_rising(phase, duty, amplitude)
    } else {
        triangle_falling(phase, duty, amplitude)
    }
}

/// Sine wave: the amplitude times the real coordinate `re` of the
/// oscillator's rotor, rounded toward zero.
pub open spec fn sine_value(re: int, amplitude: int) -> int {
    trunc_div(amplitude * re, ONE as int)
}

/// Whether a phase, a duty threshold and an amplitude are ones that an
/// oscillator can hold.
pub open spec fn evaluable(phase: int, duty: int, amplitude: int) -> bool {
    &&& -MAX_PHASE <= phase <= MAX_PHASE
    &&& 0 < duty < TURN
    &&& 0 <= amplitude <= MAX_AMPLITUDE
}

/// Value of the square wave at `phase`.
pub fn square(phase: i64, duty: i64, amplitude: i64) -> (value: i128)
    ensures
        value == square_value(phase as int, duty as int, amplitude as int),
{
    if phase < duty {
        amplitude as i128
    } else {
        -(amplitude as i128)
    }
}

/// Value of the triangle wave at `phase`.
pub fn triangle(phase: i64, duty: i64, amplitude: i64) -> (value: i128)
    requires
        evaluable(phase as int, duty as int, amplitude as int),
    ensures
        value == triangle_value(phase as int, duty as int, amplitude as int),
{
    let a: i128 = amplitude as i128;
    let p: i128 = phase as i128;
    let d: i128 = duty as i128;
    let t: i128 = TURN as i128;
    if phase < duty {
        let span: i128 = 2 * p - d;
        assert(-MAX_AMPLITUDE * (2 * MAX_PHASE + 3 * TURN) <= a * span <= MAX_AMPLITUDE * (2
            * MAX_PHASE + 3 * TURN)) by (nonlinear_arith)
            requires
                0 <= a <= MAX_AMPLITUDE,
                -(2 * MAX_PHASE + 3 * TURN) <= span <= 2 * MAX_PHASE + 3 * TURN,
        ;
        (a * span) / d
    } else {
        let span: i128 = t + d - 2 * p;
        assert(-MAX_AMPLITUDE * (2 * MAX_PHASE + 4 * TURN) <= a * span <= MAX_AMPLITUDE * (2
            * MAX_PHASE + 4 * TURN)) by (nonlinear_arith)
            requires
                0 <= a <= MAX_AMPLITUDE,
                -(2 * MAX_PHASE + 4 * TURN) <= span <= 2 * MAX_PHASE + 4 * TURN,
        ;
        (a * span) / (t - d)
    }
}

/// Value of the sine wave for an oscillator whose phase is `rotor`.
pub fn sine(rotor: &Rotor, amplitude: i64) -> (value: i128)
    requires
        0 <= amplitude <= MAX_AMPLITUDE,
    ensures
        value == sine_value(rotor@.0, amplitude as int),
{
    let a: i128 = amplitude as i128;
    let re: i128 = rotor.re();
    assert(-MAX_AMPLITUDE * ONE <= a * re <= MAX_AMPLITUDE * ONE) by (nonlinear_arith)
        requires
            0 <= a <= MAX_AMPLITUDE,
            -ONE <= re <= ONE,
    ;
    (a * re) / ONE
}

} // verus!
