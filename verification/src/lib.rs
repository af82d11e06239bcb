//! A multi-oscillator stereo signal generator in exact fixed-point
//! arithmetic: decoding of signal descriptions, phase accumulation, the
//! sine, square and triangle evaluators, channel mixing and the filling of
//! interleaved 16-bit sample blocks.
//!
//! A signal is described by a frequency, a starting phase, a duty cycle and
//! an amplitude (`signal`, read from text by `decimal` and `text`). Each
//! becomes an oscillator (`oscillator`), which keeps a running phase and
//! gives one value per sample under the waveform of its channel
//! (`waveform`). A bank (`bank`) holds the oscillators of both channels,
//! adds up each channel (`mixer`) and fills blocks of stereo frames.
//!
//! All of it is integer arithmetic (`units`). The one thing that the caller
//! brings is, for each oscillator, the two points of the unit circle that
//! its sine starts at and turns by (`rotor`): they are a cosine and a sine.
//!
//! `laws` states what holds of the whole: the phase stays wrapped, the
//! square keeps its duty cycle, the triangle has no jump, the oscillators
//! of a channel superpose, and a silent channel is silent.
pub mod bank;
pub mod decimal;
pub mod laws;
pub mod mixer;
pub mod oscillator;
pub mod rotor;
pub mod signal;
pub mod text;
pub mod units;
pub mod waveform;
