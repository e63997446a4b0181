//! Sizes of the synthesizer, fixed when the engine is built.

use vstd::prelude::*;

verus! {

/// Number of voices of the default configuration.
pub const DEFAULT_MAX_VOICES: usize = 128;

/// Number of operators of the default configuration.
pub const DEFAULT_OPERATORS_PER_VOICE: usize = 12;

/// How many voices the pool holds and how many operators a voice has.
#[derive(Clone, Copy, Debug, PartialEq, Eq, Structural)]
pub struct SynthConfig {
    pub max_voices: usize,
    pub operators_per_voice: usize,
}

impl Default for SynthConfig {
    fn default() -> (config: Self)
        ensures
            config.max_voices == DEFAULT_MAX_VOICES,
            config.operators_per_voice == DEFAULT_OPERATORS_PER_VOICE,
    {
        Self { max_voices: DEFAULT_MAX_VOICES, operators_per_voice: DEFAULT_OPERATORS_PER_VOICE }
    }
}

} // verus!
