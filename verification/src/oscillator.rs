//! One oscillator: its configuration and its running phase.
//!
//! The phase is kept twice: as an angle in ticks, which the square and the
//! triangle read, and as a rotor, whose real coordinate the sine reads. A
//! tick advances the one that the channel's waveform reads.
use vstd::prelude::*;
use crate::rotor::{in_unit_disc, lemma_product_in_unit_disc, rotor_product, Rotor};
use crate::signal::Sigparam;
use crate::units::{MAX_AMPLITUDE, MAX_PHASE, TICKS_PER_MILLIHERTZ, TURN};
use crate::waveform::{
    sine, sine_value, square, square_value, triangle, triangle_value, Waveform,
};

verus! {

/// What an `Oscillator` holds.
pub struct OscModel {
    /// Running phase, in ticks.
    pub phase: int,
    /// Ticks of phase advanced per sample.
    pub phasestep: int,
    /// Duty threshold, in ticks.
    pub dutycyclephase: int,
    /// Thousandths of a sample step.
    pub amplitude: int,
    /// Running phase of the sine, as a point of the unit disc.
    pub rotor: (int, int),
    /// The rotation by one phase step.
    pub rotorstep: (int, int),
}

/// Whether an oscillator's values are ones that it can run on.
pub open spec fn valid_oscillator(o: OscModel) -> bool {
    &&& -MAX_PHASE <= o.phase <= MAX_PHASE
    &&& 0 <= 2 * o.phasestep <= TURN
    &&& 0 < o.dutycyclephase < TURN
    &&& 0 <= o.amplitude <= MAX_AMPLITUDE
    &&& in_unit_disc(o.rotor.0, o.rotor.1)
    &&& in_unit_disc(o.rotorstep.0, o.rotorstep.1)
}

/// A phase brought back by one period where it has reached a full period
/// in either direction.
pub open spec fn wrap_phase(phase: int) -> int {
    if phase <= -TURN {
        phase + TURN
    } else if phase >= TURN {
        phase - TURN
    } else {
        phase
    }
}

/// What an oscillator adds to its channel at its current phase, in
/// thousandths of a sample step.
pub open spec fn contribution(o: OscModel, kind: Waveform) -> int {
    match kind {
        Waveform::Sine => sine_value(o.rotor.0, o.amplitude),
        Waveform::Square => square_value(o.phase, o.dutycyclephase, o.amplitude),
        Waveform::Triangle => triangle_value(o.phase, o.dutycyclephase, o.amplitude),
        Waveform::Nowave => 0,
    }
}

/// The oscillator one sample later: the sine turns its rotor, the square and
/// the triangle add the phase step and wrap, a silent channel leaves its
/// oscillators as they are.
pub open spec fn advance(o: OscModel, kind: Waveform) -> OscModel {
    match kind {
        Waveform::Sine => OscModel { rotor: rotor_product(o.rotor, o.rotorstep), ..o },
        Waveform::Square | Waveform::Triangle => OscModel {
            phase: wrap_phase(o.phase + o.phasestep),
            ..o
        },
        Waveform::Nowave => o,
    }
}

/// The oscillator `n` samples later.
pub open spec fn advance_by(o: OscModel, kind: Waveform, n: nat) -> OscModel
    decreases n,
{
    if n == 0 {
        o
    } else {
        advance(advance_by(o, kind, (n - 1) as nat), kind)
    }
}

/// A valid oscillator stays valid when it advances.
pub proof fn lemma_advance_valid(o: OscModel, kind: Waveform)
    requires
        valid_oscillator(o),
    ensures
        valid_oscillator(advance(o, kind)),
{
    lemma_product_in_unit_disc(o.rotor, o.rotorstep);
}

/// One oscillator of a channel.
#[derive(Clone, Copy, Debug)]
pub struct Oscillator {
    phase: i64,
    phasestep: i64,
    dutycyclephase: i64,
    amplitude: i64,
    rotor: Rotor,
    rotorstep: Rotor,
}

impl View for Oscillator {
    type V = OscModel;

    closed spec fn view(&self) -> OscModel {
        OscModel {
            phase: self.phase as int,
            phasestep: self.phasestep as int,
            dutycyclephase: self.dutycyclephase as int,
            amplitude: self.amplitude as int,
            rotor: self.rotor@,
            rotorstep: self.rotorstep@,
        }
    }
}

impl Oscillator {
    /// The invariant of the type: the oscillator is valid.
    #[verifier::type_invariant]
    pub closed spec fn valid(self) -> bool {
        valid_oscillator(self@)
    }

    /// What the invariant says of the view.
    pub proof fn lemma_valid(self)
        requires
            self.valid(),
        ensures
            valid_oscillator(self@),
    {
    }

    /// An oscillator for `sig`, at its starting phase. `rotor` is the point
    /// of the unit circle that the sine starts at, `rotorstep` the rotation
    /// that one sample turns it by.
    pub fn new(sig: &Sigparam, rotor: Rotor, rotorstep: Rotor) -> (osc: Oscillator)
        ensures
            osc@ == (OscModel {
                phase: sig@.phase,
                phasestep: sig@.frequency * TICKS_PER_MILLIHERTZ,
                dutycyclephase: sig@.dutycyclephase,
                amplitude: sig@.amplitude,
                rotor: rotor@,
                rotorstep: rotorstep@,
            }),
    {
        proof {
            use_type_invariant(sig);
            sig.lemma_valid();
            use_type_invariant(&rotor);
            rotor.lemma_inside();
            use_type_invariant(&rotorstep);
            rotorstep.lemma_inside();
        }
        Oscillator {
            phase: sig.phase(),
            phasestep: sig.phasestep(),
            dutycyclephase: sig.dutycyclephase(),
            amplitude: sig.amplitude(),
            rotor,
            rotorstep,
        }
    }

    /// The running phase, in ticks.
    pub fn phase(&self) -> (p: i64)
        ensures
            p == self@.phase,
    {
        self.phase
    }

    /// The point of the unit disc at which the sine stands.
    pub fn rotor(&self) -> (r: Rotor)
        ensures
            r@ == self@.rotor,
    {
        self.rotor
    }

    /// What the oscillator adds to a channel of the given kind at its
    /// current phase, in thousandths of a sample step.
    pub fn value(&self, kind: Waveform) -> (v: i128)
        ensures
            v == contribution(self@, kind),
    {
        proof {
            use_type_invariant(self);
        }
        match kind {
            Waveform::Sine => sine(&self.rotor, self.amplitude),
            Waveform::Square => square(self.phase, self.dutycyclephase, self.amplitude),
            Waveform::Triangle => triangle(self.phase, self.dutycyclephase, self.amplitude),
            Waveform::Nowave => 0,
        }
    }

    /// Moves the oscillator one sample on.
    pub fn advance(&mut self, kind: Waveform)
        ensures
            final(self)@ == advance(old(self)@, kind),
    {
        proof {
            use_type_invariant(&*self);
            lemma_advance_valid(self@, kind);
        }
        match kind {
            Waveform::Sine => {
                self.rotor = self.rotor.times(&self.rotorstep);
            },
            Waveform::Square | Waveform::Triangle => {
                let mut phase: i64 = self.phase + self.phasestep;
                if phase <= -TURN {
                    phase = phase + TURN;
                } else if phase >= TURN {
                    phase = phase - TURN;
                }
                self.phase = phase;
            },
            Waveform::Nowave => {},
        }
    }

    /// The oscillator's value at its current phase; the oscillator is then
    /// moved one sample on.
    pub fn tick(&mut self, kind: Waveform) -> (v: i128)
        ensures
            v == contribution(old(self)@, kind),
            final(self)@ == advance(old(self)@, kind),
    {
        let v = self.value(kind);
        self.advance(kind);
        v
    }
}

} // verus!
