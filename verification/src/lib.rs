//! Control core of a polyphonic FM synthesizer.
//!
//! The crate holds the discrete half of the instrument: the waveform
//! selection of each operator, the validation of note events, the modulation
//! algorithm and its unrolling into a feedback-free node structure, the
//! order in which that structure is evaluated, the envelope phases, the
//! voices and the voice pool. Sample arithmetic is left to the caller, which
//! asks this crate what to compute and in what order.
//!
//! Every function is verified against its contract. The one exception is
//! the function that writes a number into a sentence, in [`text`], whose
//! contract is taken on trust.

pub mod algorithm;
pub mod config;
pub mod engine;
pub mod envelope;
pub mod evaluation;
pub mod graph;
pub mod keyboard;
pub mod note;
pub mod operator;
pub mod text;
pub mod voice;
pub mod waveform;
