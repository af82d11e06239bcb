//! The oscillator bank: every oscillator of both channels, and the stereo
//! frames that they produce.
use vstd::prelude::*;
use crate::mixer::{
    lemma_contribution_bound, lemma_mix_silent, mix, sample_of, to_sample, MAX_CONTRIBUTION,
};
use crate::oscillator::{advance, contribution, valid_oscillator, OscModel, Oscillator};
use crate::waveform::Waveform;

verus! {

/// The most oscillators that one bank holds.
pub const MAX_OSCILLATORS: usize = 0xFFFF_FFFF;

/// Frames in the block that a generator hands to its sink at a time.
pub const BLOCK_FRAMES: usize = 4096;

/// What an `OscillatorBank` holds.
pub struct BankModel {
    /// The oscillators: those of the left channel, then those of the right.
    pub sig: Seq<OscModel>,
    /// How many of them belong to the left channel.
    pub leftsiglen: int,
    /// How the left channel's oscillators are evaluated.
    pub lefttype: Waveform,
    /// How the right channel's oscillators are evaluated.
    pub righttype: Waveform,
}

/// Whether a bank's values are ones that it can run on.
pub open spec fn valid_bank(b: BankModel) -> bool {
    &&& 0 <= b.leftsiglen <= b.sig.len() <= MAX_OSCILLATORS
    &&& forall|i: int| 0 <= i < b.sig.len() ==> valid_oscillator(#[trigger] b.sig[i])
}

/// The waveform that oscillator `i` is evaluated under: the one of the
/// channel that it belongs to.
pub open spec fn kind_of(b: BankModel, i: int) -> Waveform {
    if i < b.leftsiglen {
        b.lefttype
    } else {
        b.righttype
    }
}

/// The oscillators of the left channel.
pub open spec fn left_signals(b: BankModel) -> Seq<OscModel> {
    b.sig.subrange(0, b.leftsiglen)
}

/// The oscillators of the right channel.
pub open spec fn right_signals(b: BankModel) -> Seq<OscModel> {
    b.sig.subrange(b.leftsiglen, b.sig.len() as int)
}

/// The left sample of the frame that the bank stands at.
pub open spec fn left_sample(b: BankModel) -> int {
    sample_of(mix(left_signals(b), b.lefttype))
}

/// The right sample of the frame that the bank stands at.
pub open spec fn right_sample(b: BankModel) -> int {
    sample_of(mix(right_signals(b), b.righttype))
}

/// The bank one frame later: every oscillator has advanced once, under the
/// waveform of its channel.
pub open spec fn next_bank(b: BankModel) -> BankModel {
    BankModel { sig: Seq::new(b.sig.len(), |i: int| advance(b.sig[i], kind_of(b, i))), ..b }
}

/// The bank `n` frames later.
pub open spec fn bank_after(b: BankModel, n: nat) -> BankModel
    decreases n,
{
    if n == 0 {
        b
    } else {
        next_bank(bank_after(b, (n - 1) as nat))
    }
}

/// The bank in which the oscillators `from..to` have advanced once under
/// `kind`, and the others not.
pub open spec fn advanced_range(b: BankModel, from: int, to: int, kind: Waveform) -> BankModel {
    BankModel {
        sig: Seq::new(
            b.sig.len(),
            |j: int|
                if from <= j < to {
                    advance(b.sig[j], kind)
                } else {
                    b.sig[j]
                },
        ),
        ..b
    }
}

/// What each oscillator of `oscs` holds.
pub open spec fn models(oscs: Seq<Oscillator>) -> Seq<OscModel> {
    Seq::new(oscs.len(), |i: int| oscs[i]@)
}

/// The value that slot `j` of an interleaved block holds, for a bank that
/// stood at `b` when the block was begun: the left sample of frame `j / 2`
/// in the even slots, the right sample in the odd ones.
pub open spec fn block_slot(b: BankModel, j: int) -> int {
    if j % 2 == 0 {
        left_sample(bank_after(b, (j / 2) as nat))
    } else {
        right_sample(bank_after(b, (j / 2) as nat))
    }
}

/// Stores `osc` at place `i` of `sig`.
fn put(sig: &mut Vec<Oscillator>, i: usize, osc: Oscillator)
    requires
        i < old(sig)@.len(),
    ensures
        final(sig)@ == old(sig)@.update(i as int, osc),
    no_unwind
{
    sig[i] = osc;
}

/// All oscillators of a stereo generator, with the waveform of each channel.
pub struct OscillatorBank {
    sig: Vec<Oscillator>,
    leftsiglen: usize,
    lefttype: Waveform,
    righttype: Waveform,
}

impl View for OscillatorBank {
    type V = BankModel;

    closed spec fn view(&self) -> BankModel {
        BankModel {
            sig: Seq::new(self.sig@.len(), |i: int| self.sig@[i]@),
            leftsiglen: self.leftsiglen as int,
            lefttype: self.lefttype,
            righttype: self.righttype,
        }
    }
}

impl OscillatorBank {
    /// The invariant of the type: the bank is valid.
    #[verifier::type_invariant]
    pub closed spec fn valid(self) -> bool {
        valid_bank(self@)
    }

    /// What the invariant says of the view.
    pub proof fn lemma_valid(self)
        requires
            self.valid(),
        ensures
            valid_bank(self@),
    {
    }

    /// A bank of the oscillators of `left`, evaluated as `lefttype`, and
    /// those of `right`, evaluated as `righttype`; none where that is
    /// more oscillators than a bank holds.
    pub fn new(
        lefttype: Waveform,
        righttype: Waveform,
        left: &Vec<Oscillator>,
        right: &Vec<Oscillator>,
    ) -> (bank: Option<OscillatorBank>)
        ensures
            bank is Some <==> left@.len() + right@.len() <= MAX_OSCILLATORS,
            bank matches Some(b) ==> b@ == (BankModel {
                sig: models(left@) + models(right@),
                leftsiglen: left@.len() as int,
                lefttype,
                righttype,
            }),
    {
        if left.len() > MAX_OSCILLATORS || right.len() > MAX_OSCILLATORS - left.len() {
            return None;
        }
        let mut sig: Vec<Oscillator> = Vec::new();
        let mut i: usize = 0;
        while i < left.len()
            invariant
                i <= left@.len(),
                sig@.len() == i,
                forall|j: int| 0 <= j < i ==> (#[trigger] sig@[j]) == left@[j],
                forall|j: int| 0 <= j < sig@.len() ==> valid_oscillator(#[trigger] sig@[j]@),
            decreases left@.len() - i,
        {
            let osc: Oscillator = left[i];
            proof {
                use_type_invariant(&osc);
                osc.lemma_valid();
            }
            sig.push(osc);
            i = i + 1;
        }
        let mut k: usize = 0;
        while k < right.len()
            invariant
                k <= right@.len(),
                sig@.len() == left@.len() + k,
                forall|j: int| 0 <= j < left@.len() ==> (#[trigger] sig@[j]) == left@[j],
                forall|j: int| 0 <= j < k ==> (#[trigger] sig@[left@.len() + j]) == right@[j],
                forall|j: int| 0 <= j < sig@.len() ==> valid_oscillator(#[trigger] sig@[j]@),
            decreases right@.len() - k,
        {
            let osc: Oscillator = right[k];
            proof {
                use_type_invariant(&osc);
                osc.lemma_valid();
            }
            sig.push(osc);
            k = k + 1;
        }
        let bank = OscillatorBank { sig, leftsiglen: left.len(), lefttype, righttype };
        assert forall|j: int| 0 <= j < bank@.sig.len() implies bank@.sig[j] == (models(left@)
            + models(right@))[j] by {
            if j >= left@.len() {
                assert(sig@[left@.len() + (j - left@.len())] == right@[j - left@.len()]);
            }
        }
        assert(bank@.sig =~= models(left@) + models(right@));
        Some(bank)
    }

    /// How many oscillators the bank holds.
    pub fn len(&self) -> (n: usize)
        ensures
            n == self@.sig.len(),
    {
        self.sig.len()
    }

    /// How many of the oscillators belong to the left channel.
    pub fn leftsiglen(&self) -> (n: usize)
        ensures
            n == self@.leftsiglen,
    {
        self.leftsiglen
    }

    /// The value of oscillator `i` at its current phase, under the waveform
    /// of its channel; the oscillator is then moved one sample on.
    pub fn tick(&mut self, i: usize) -> (v: i128)
        requires
            i < old(self)@.sig.len(),
        ensures
            v == contribution(old(self)@.sig[i as int], kind_of(old(self)@, i as int)),
            final(self)@ == advanced_range(
                old(self)@,
                i as int,
                i + 1,
                kind_of(old(self)@, i as int),
            ),
    {
        let kind = if i < self.leftsiglen {
            self.lefttype
        } else {
            self.righttype
        };
        let v = self.tick_as(i, kind);
        v
    }

    /// The value of oscillator `i` at its current phase, under `kind`; the
    /// oscillator is then moved one sample on.
    fn tick_as(&mut self, i: usize, kind: Waveform) -> (v: i128)
        requires
            i < old(self)@.sig.len(),
        ensures
            v == contribution(old(self)@.sig[i as int], kind),
            -MAX_CONTRIBUTION <= v <= MAX_CONTRIBUTION,
            final(self)@ == advanced_range(old(self)@, i as int, i + 1, kind),
    {
        proof {
            use_type_invariant(&*self);
        }
        let mut osc: Oscillator = self.sig[i];
        let v = osc.tick(kind);
        proof {
            lemma_contribution_bound(old(self)@.sig[i as int], kind);
            use_type_invariant(&osc);
            osc.lemma_valid();
            let after = self.sig@.update(i as int, osc);
            assert forall|j: int| 0 <= j < after.len() implies valid_oscillator(
                #[trigger] after[j]@,
            ) by {
                if j != i {
                    assert(valid_oscillator(self@.sig[j]));
                }
            }
        }
        put(&mut self.sig, i, osc);
        assert(self@.sig =~= advanced_range(old(self)@, i as int, i + 1, kind).sig);
        v
    }

    /// The sum of what the oscillators `from..to` contribute under `kind`;
    /// each of them is then moved one sample on.
    fn channel(&mut self, from: usize, to: usize, kind: Waveform) -> (sum: i128)
        requires
            from <= to <= old(self)@.sig.len(),
        ensures
            sum == mix(old(self)@.sig.subrange(from as int, to as int), kind),
            final(self)@ == advanced_range(old(self)@, from as int, to as int, kind),
    {
        let ghost before = self@;
        proof {
            use_type_invariant(&*self);
        }
        if let Waveform::Nowave = kind {
            proof {
                lemma_mix_silent(before.sig.subrange(from as int, to as int));
                assert(self@.sig =~= advanced_range(before, from as int, to as int, kind).sig);
            }
            return 0;
        }
        let mut sum: i128 = 0;
        let mut i: usize = from;
        assert(self@.sig =~= advanced_range(before, from as int, i as int, kind).sig);
        while i < to
            invariant
                from <= i <= to <= before.sig.len() <= MAX_OSCILLATORS,
                self@ == advanced_range(before, from as int, i as int, kind),
                sum == mix(before.sig.subrange(from as int, i as int), kind),
                -(i - from) * MAX_CONTRIBUTION <= sum <= (i - from) * MAX_CONTRIBUTION,
            decreases to - i,
        {
            let ghost reached = self@;
            let v = self.tick_as(i, kind);
            proof {
                let upto = before.sig.subrange(from as int, i + 1);
                assert(upto.drop_last() =~= before.sig.subrange(from as int, i as int));
                assert(upto.last() == before.sig[i as int]);
                assert(reached.sig[i as int] == before.sig[i as int]);
                assert(self@.sig =~= advanced_range(before, from as int, i + 1, kind).sig);
                assert((i - from) * MAX_CONTRIBUTION + MAX_CONTRIBUTION <= MAX_OSCILLATORS
                    * MAX_CONTRIBUTION) by (nonlinear_arith)
                    requires
                        0 <= i - from < MAX_OSCILLATORS,
                ;
                assert((i + 1 - from) * MAX_CONTRIBUTION == (i - from) * MAX_CONTRIBUTION
                    + MAX_CONTRIBUTION) by (nonlinear_arith);
            }
            sum = sum + v;
            i = i + 1;
        }
        proof {
            assert((i - from) * MAX_CONTRIBUTION <= MAX_OSCILLATORS * MAX_CONTRIBUTION)
                by (nonlinear_arith)
                requires
                    0 <= i - from <= MAX_OSCILLATORS,
            ;
        }
        sum
    }

    /// The stereo frame that the bank stands at: the left and the right
    /// sample. Every oscillator is then moved one sample on.
    pub fn frame(&mut self) -> (pair: (i16, i16))
        ensures
            pair.0 == left_sample(old(self)@),
            pair.1 == right_sample(old(self)@),
            final(self)@ == next_bank(old(self)@),
    {
        let ghost before = self@;
        proof {
            use_type_invariant(&*self);
        }
        let split: usize = self.leftsiglen;
        let end: usize = self.sig.len();
        let (lefttype, righttype) = (self.lefttype, self.righttype);
        let left = self.channel(0, split, lefttype);
        let ghost between = self@;
        let right = self.channel(split, end, righttype);
        proof {
            assert(between.sig.subrange(split as int, end as int) =~= right_signals(before));
            assert(self@.sig =~= next_bank(before).sig);
        }
        (to_sample(left), to_sample(right))
    }

    /// Fills `buf` with interleaved frames, left sample first, as many as
    /// it has room for, and moves the bank past them. A last slot that makes
    /// no whole frame is left as it is.
    pub fn fill(&mut self, buf: &mut Vec<i16>)
        ensures
            final(buf)@.len() == old(buf)@.len(),
            forall|j: int|
                0 <= j < 2 * (old(buf)@.len() / 2) ==> (#[trigger] final(buf)@[j]) == block_slot(
                    old(self)@,
                    j,
                ),
            forall|j: int|
                2 * (old(buf)@.len() / 2) <= j < old(buf)@.len() ==> (#[trigger] final(buf)@[j])
                    == old(buf)@[j],
            final(self)@ == bank_after(old(self)@, old(buf)@.len() / 2),
    {
        let ghost before = self@;
        let ghost given = buf@;
        let frames: usize = buf.len() / 2;
        let mut k: usize = 0;
        while k < frames
            invariant
                k <= frames,
                frames == given.len() / 2,
                2 * frames <= given.len() <= usize::MAX,
                buf@.len() == given.len(),
                self@ == bank_after(before, k as nat),
                forall|j: int| 0 <= j < 2 * k ==> (#[trigger] buf@[j]) == block_slot(before, j),
                forall|j: int| 2 * k <= j < given.len() ==> (#[trigger] buf@[j]) == given[j],
            decreases frames - k,
        {
            let (left, right) = self.frame();
            buf[2 * k] = left;
            buf[2 * k + 1] = right;
            k = k + 1;
        }
    }
}

} // verus!
