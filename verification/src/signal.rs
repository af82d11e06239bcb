//! Signal descriptions: what one oscillator is configured with.
use vstd::prelude::*;
use vstd::slice::slice_subrange;
use vstd::string::StringSliceAdditionalSpecFns;
use crate::decimal::{decimal, parse_decimal, toward_zero};
use crate::text::{cut, split, split_ranges};
use crate::units::{
    MAX_AMPLITUDE, MAX_FREQUENCY, MAX_MILLI, MAX_PHASE, TICKS_PER_MILLIDEGREE,
    TICKS_PER_MILLIHERTZ, TICKS_PER_MILLIPERCENT, TURN,
};

verus! {

/// Why a signal description is refused.
#[derive(Clone, Copy, Debug, PartialEq, Eq, Structural)]
pub enum SigError {
    /// A signal is not made of four fields.
    Fields,
    /// A field is no numeral, or the phase is beyond what can be held.
    Number,
    /// The frequency is not within 0..24000 Hz.
    Frequency,
    /// The amplitude is not within 0..32767.
    Amplitude,
}

/// What a `Sigparam` holds.
pub struct SigparamModel {
    /// Thousandths of a hertz.
    pub frequency: int,
    /// Starting phase, in ticks.
    pub phase: int,
    /// Duty threshold, in ticks.
    pub dutycyclephase: int,
    /// Thousandths of a sample step.
    pub amplitude: int,
}

/// The duty threshold, in ticks, for a duty cycle given in thousandths of a
/// percent. It is kept strictly between zero and a full period, so that both
/// flanks of a triangle have a length.
pub open spec fn duty_ticks(dutycycle: int) -> int {
    if dutycycle * TICKS_PER_MILLIPERCENT < 1 {
        1
    } else if dutycycle * TICKS_PER_MILLIPERCENT > TURN - 1 {
        TURN - 1
    } else {
        dutycycle * TICKS_PER_MILLIPERCENT
    }
}

/// The description made of a frequency in thousandths of a hertz, a phase in
/// thousandths of a degree, a duty cycle in thousandths of a percent and an
/// amplitude in thousandths, or the reason why there is none.
pub open spec fn describe(frequency: int, degrees: int, dutycycle: int, amplitude: int) -> Result<
    SigparamModel,
    SigError,
> {
    if degrees < -MAX_MILLI || degrees > MAX_MILLI {
        Err(SigError::Number)
    } else if frequency < 0 || frequency > MAX_FREQUENCY {
        Err(SigError::Frequency)
    } else if amplitude < 0 || amplitude > MAX_AMPLITUDE {
        Err(SigError::Amplitude)
    } else {
        Ok(
            SigparamModel {
                frequency,
                phase: degrees * TICKS_PER_MILLIDEGREE,
                dutycyclephase: duty_ticks(dutycycle),
                amplitude,
            },
        )
    }
}

/// Whether a description is one that an oscillator can be made from.
pub open spec fn valid_signal(s: SigparamModel) -> bool {
    &&& 0 <= s.frequency <= MAX_FREQUENCY
    &&& -MAX_PHASE <= s.phase <= MAX_PHASE
    &&& 0 < s.dutycyclephase < TURN
    &&& 0 <= s.amplitude <= MAX_AMPLITUDE
}

/// Every description that `describe` gives is valid.
pub proof fn lemma_describe_valid(frequency: int, degrees: int, dutycycle: int, amplitude: int)
    ensures
        describe(frequency, degrees, dutycycle, amplitude) matches Ok(s) ==> valid_signal(s),
{
}

/// The byte that parts the signals of a list.
pub const SPACE: u8 = 32;

/// The byte that parts the fields of a signal.
pub const COLON: u8 = 58;

/// Whether the number that lies between the two whole numbers of
/// `bounds` lies within zero and `max`.
pub open spec fn within(bounds: (int, int), max: int) -> bool {
    0 <= bounds.0 && bounds.1 <= max
}

/// The description that the fields of one signal give: frequency in hertz,
/// phase in degrees, duty cycle in percent, amplitude. Frequency and
/// amplitude are held to their ranges as they are written; what is held of
/// each field is its thousandths, rounded toward zero.
pub open spec fn signal_of(fields: Seq<Seq<u8>>) -> Result<SigparamModel, SigError> {
    if fields.len() != 4 {
        Err(SigError::Fields)
    } else {
        match (decimal(fields[0]), decimal(fields[1]), decimal(fields[2]), decimal(fields[3])) {
            (Some(frequency), Some(degrees), Some(dutycycle), Some(amplitude)) => {
                if toward_zero(degrees) < -MAX_MILLI || toward_zero(degrees) > MAX_MILLI {
                    Err(SigError::Number)
                } else if !within(frequency, MAX_FREQUENCY as int) {
                    Err(SigError::Frequency)
                } else if !within(amplitude, MAX_AMPLITUDE as int) {
                    Err(SigError::Amplitude)
                } else {
                    describe(
                        frequency.0,
                        toward_zero(degrees),
                        toward_zero(dutycycle),
                        amplitude.0,
                    )
                }
            },
            _ => Err(SigError::Number),
        }
    }
}

/// The descriptions that the signals `tokens` give, in order, or what is
/// wrong with the first that gives none.
pub open spec fn signals_of(tokens: Seq<Seq<u8>>) -> Result<Seq<SigparamModel>, SigError>
    decreases tokens.len(),
{
    if tokens.len() == 0 {
        Ok(Seq::empty())
    } else {
        match signal_of(split(tokens[0], COLON)) {
            Err(e) => Err(e),
            Ok(first) => match signals_of(tokens.skip(1)) {
                Err(e) => Err(e),
                Ok(rest) => Ok(seq![first] + rest),
            },
        }
    }
}

/// The descriptions that a list of signals gives: none for an empty text,
/// else one for each piece between single spaces.
pub open spec fn decode_signals(text: Seq<u8>) -> Result<Seq<SigparamModel>, SigError> {
    if text.len() == 0 {
        Ok(Seq::empty())
    } else {
        signals_of(split(text, SPACE))
    }
}

/// What each description of `sigs` holds.
pub open spec fn sig_models(sigs: Seq<Sigparam>) -> Seq<SigparamModel> {
    Seq::new(sigs.len(), |i: int| sigs[i]@)
}

/// `found` put before the descriptions of `rest`, where there are any.
pub open spec fn prepend(found: Seq<SigparamModel>, rest: Result<Seq<SigparamModel>, SigError>)
    -> Result<Seq<SigparamModel>, SigError> {
    match rest {
        Ok(more) => Ok(found + more),
        Err(e) => Err(e),
    }
}

/// The configuration of one oscillator.
#[derive(Clone, Copy, Debug, PartialEq, Eq, Structural)]
pub struct Sigparam {
    frequency: i64,
    phase: i64,
    dutycyclephase: i64,
    amplitude: i64,
}

impl View for Sigparam {
    type V = SigparamModel;

    closed spec fn view(&self) -> SigparamModel {
        SigparamModel {
            frequency: self.frequency as int,
            phase: self.phase as int,
            dutycyclephase: self.dutycyclephase as int,
            amplitude: self.amplitude as int,
        }
    }
}

impl Sigparam {
    /// The invariant of the type: the description is valid.
    #[verifier::type_invariant]
    pub closed spec fn valid(self) -> bool {
        valid_signal(self@)
    }

    /// What the invariant says of the view.
    pub proof fn lemma_valid(self)
        requires
            self.valid(),
        ensures
            valid_signal(self@),
    {
    }

    /// Makes a description from a frequency in thousandths of a hertz, a
    /// phase in thousandths of a degree, a duty cycle in thousandths of a
    /// percent and an amplitude in thousandths.
    pub fn new(frequency: i64, degrees: i64, dutycycle: i64, amplitude: i64) -> (made: Result<
        Sigparam,
        SigError,
    >)
        ensures
            match made {
                Ok(sig) => describe(
                    frequency as int,
                    degrees as int,
                    dutycycle as int,
                    amplitude as int,
                ) == Ok::<SigparamModel, SigError>(sig@),
                Err(e) => describe(
                    frequency as int,
                    degrees as int,
                    dutycycle as int,
                    amplitude as int,
                ) == Err::<SigparamModel, SigError>(e),
            },
    {
        if degrees < -MAX_MILLI || degrees > MAX_MILLI {
            return Err(SigError::Number);
        }
        if frequency < 0 || frequency > MAX_FREQUENCY {
            return Err(SigError::Frequency);
        }
        if amplitude < 0 || amplitude > MAX_AMPLITUDE {
            return Err(SigError::Amplitude);
        }
        let dutycyclephase: i64 = if dutycycle <= 0 {
            1
        } else if dutycycle >= 100_000 {
            TURN - 1
        } else {
            dutycycle * TICKS_PER_MILLIPERCENT
        };
        Ok(
            Sigparam {
                frequency,
                phase: degrees * TICKS_PER_MILLIDEGREE,
                dutycyclephase,
                amplitude,
            },
        )
    }

    /// The frequency, in thousandths of a hertz.
    pub fn frequency(&self) -> (f: i64)
        ensures
            f == self@.frequency,
    {
        self.frequency
    }

    /// The starting phase, in ticks.
    pub fn phase(&self) -> (p: i64)
        ensures
            p == self@.phase,
    {
        self.phase
    }

    /// The duty threshold, in ticks.
    pub fn dutycyclephase(&self) -> (d: i64)
        ensures
            d == self@.dutycyclephase,
    {
        self.dutycyclephase
    }

    /// The amplitude, in thousandths of a sample step.
    pub fn amplitude(&self) -> (a: i64)
        ensures
            a == self@.amplitude,
    {
        self.amplitude
    }

    /// The phase advanced per sample, in ticks.
    pub fn phasestep(&self) -> (step: i64)
        ensures
            step == self@.frequency * TICKS_PER_MILLIHERTZ,
            0 <= 2 * step <= TURN,
    {
        proof {
            use_type_invariant(self);
        }
        self.frequency * TICKS_PER_MILLIHERTZ
    }
}

/// Decodes one signal, `frequency:phase:dutycycle:amplitude`.
pub fn sigdec(sig: &[u8]) -> (made: Result<Sigparam, SigError>)
    ensures
        match made {
            Ok(s) => signal_of(split(sig@, COLON)) == Ok::<SigparamModel, SigError>(s@),
            Err(e) => signal_of(split(sig@, COLON)) == Err::<SigparamModel, SigError>(e),
        },
{
    let sv = split_ranges(sig, COLON);
    if sv.len() != 4 {
        return Err(SigError::Fields);
    }
    let ghost fields = split(sig@, COLON);
    assert(fields[0] == cut(sig@, sv@)[0] && fields[1] == cut(sig@, sv@)[1] && fields[2] == cut(
        sig@,
        sv@,
    )[2] && fields[3] == cut(sig@, sv@)[3]);
    let frequency = parse_decimal(slice_subrange(sig, sv[0].0, sv[0].1));
    let degrees = parse_decimal(slice_subrange(sig, sv[1].0, sv[1].1));
    let dutycycle = parse_decimal(slice_subrange(sig, sv[2].0, sv[2].1));
    let amplitude = parse_decimal(slice_subrange(sig, sv[3].0, sv[3].1));
    match (frequency, degrees, dutycycle, amplitude) {
        (Some(f), Some(p), Some(d), Some(a)) => {
            let phase: i64 = inner(p);
            if phase < -MAX_MILLI || phase > MAX_MILLI {
                Err(SigError::Number)
            } else if f.0 < 0 || f.1 > MAX_FREQUENCY {
                Err(SigError::Frequency)
            } else if a.0 < 0 || a.1 > MAX_AMPLITUDE {
                Err(SigError::Amplitude)
            } else {
                Sigparam::new(f.0, phase, inner(d), a.0)
            }
        },
        _ => Err(SigError::Number),
    }
}

/// Of two neighbouring whole numbers, the one nearer to zero.
fn inner(bounds: (i64, i64)) -> (value: i64)
    ensures
        value == toward_zero((bounds.0 as int, bounds.1 as int)),
{
    if bounds.0 >= 0 {
        bounds.0
    } else {
        bounds.1
    }
}

/// Decodes a list of signals, each `frequency:phase:dutycycle:amplitude`,
/// parted by single spaces. An empty text is an empty list.
pub fn sigstrdec(sigstr: &str) -> (made: Result<Vec<Sigparam>, SigError>)
    ensures
        match made {
            Ok(sigpvec) => decode_signals(sigstr.spec_bytes()) == Ok::<
                Seq<SigparamModel>,
                SigError,
            >(sig_models(sigpvec@)),
            Err(e) => decode_signals(sigstr.spec_bytes()) == Err::<Seq<SigparamModel>, SigError>(
                e,
            ),
        },
{
    let text = sigstr.as_bytes();
    let mut sigpvec: Vec<Sigparam> = Vec::new();
    if text.len() == 0 {
        assert(sig_models(sigpvec@) =~= Seq::empty());
        return Ok(sigpvec);
    }
    let ranges = split_ranges(text, SPACE);
    let ghost tokens = split(text@, SPACE);
    let mut k: usize = 0;
    assert(tokens.skip(0) =~= tokens);
    assert(sig_models(sigpvec@) + Seq::<SigparamModel>::empty() =~= Seq::empty());
    while k < ranges.len()
        invariant
            k <= ranges@.len(),
            text@ == sigstr.spec_bytes(),
            text@.len() > 0,
            tokens == split(text@, SPACE),
            tokens == cut(text@, ranges@),
            forall|j: int|
                0 <= j < ranges@.len() ==> (#[trigger] ranges@[j]).0 <= ranges@[j].1
                    <= text@.len(),
            signals_of(tokens) == prepend(sig_models(sigpvec@), signals_of(tokens.skip(k as int))),
        decreases ranges@.len() - k,
    {
        let ghost rest = tokens.skip(k as int);
        let ghost found = sig_models(sigpvec@);
        assert(rest[0] == tokens[k as int]);
        assert(rest.skip(1) =~= tokens.skip(k + 1));
        match sigdec(slice_subrange(text, ranges[k].0, ranges[k].1)) {
            Err(e) => {
                return Err(e);
            },
            Ok(s) => {
                sigpvec.push(s);
                proof {
                    assert(sig_models(sigpvec@) =~= found + seq![s@]);
                    match signals_of(tokens.skip(k + 1)) {
                        Ok(more) => {
                            assert(found + (seq![s@] + more) =~= (found + seq![s@]) + more);
                        },
                        Err(_) => {},
                    }
                }
            },
        }
        k = k + 1;
    }
    assert(sig_models(sigpvec@) + Seq::<SigparamModel>::empty() =~= sig_models(sigpvec@));
    Ok(sigpvec)
}

} // verus!
