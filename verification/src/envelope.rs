//! The phases of an attack, decay, sustain and release envelope.
//!
//! The envelope of a voice rises to its peak (attack), falls to the sustain
//! level (decay), stays there (sustain) and, once released, falls to silence
//! (release), where it rests (idle). The level itself is kept by the caller,
//! which reports, sample by sample, whether the level that the phase heads
//! for has been reached; the level is zero whenever the phase is idle.

use vstd::prelude::*;

verus! {

/// Phase of an envelope.
#[derive(PartialEq, Eq, Debug, Copy, Clone, Structural)]
pub enum EnvelopeState {
    Idle,
    Attack,
    Decay,
    Sustain,
    Release,
}

impl EnvelopeState {
    /// The phase after a trigger: the attack, whatever the phase was.
    pub open spec fn triggered(self) -> EnvelopeState {
        EnvelopeState::Attack
    }

    /// The phase after a release: the release, unless the envelope is idle.
    pub open spec fn released(self) -> EnvelopeState {
        if self == EnvelopeState::Idle {
            EnvelopeState::Idle
        } else {
            EnvelopeState::Release
        }
    }

    /// The level moves during this phase, towards a level at which the phase
    /// ends.
    pub open spec fn is_moving(self) -> bool {
        self == EnvelopeState::Attack || self == EnvelopeState::Decay || self
            == EnvelopeState::Release
    }

    /// The phase that follows when the level of this phase is reached.
    pub open spec fn following(self) -> EnvelopeState {
        match self {
            EnvelopeState::Attack => EnvelopeState::Decay,
            EnvelopeState::Decay => EnvelopeState::Sustain,
            EnvelopeState::Release => EnvelopeState::Idle,
            EnvelopeState::Sustain => EnvelopeState::Sustain,
            EnvelopeState::Idle => EnvelopeState::Idle,
        }
    }

    /// The phase after one sample: the following phase if the level that the
    /// phase heads for was reached on that sample, and the same phase
    /// otherwise.
    pub open spec fn after_sample(self, reached: bool) -> EnvelopeState {
        if reached {
            self.following()
        } else {
            self
        }
    }

    /// The phase after a run of samples, one report for each.
    pub open spec fn after_samples(self, reached: Seq<bool>) -> EnvelopeState
        decreases reached.len(),
    {
        if reached.len() == 0 {
            self
        } else {
            self.after_samples(reached.drop_last()).after_sample(reached.last())
        }
    }
}

/// The phases in which the level rests are left by no sample: an envelope
/// stays in the sustain phase until it is released, and idle until it is
/// triggered.
pub proof fn lemma_resting_phases_hold(state: EnvelopeState, reached: Seq<bool>)
    requires
        !state.is_moving(),
    ensures
        state.after_samples(reached) == state,
    decreases reached.len(),
{
    if reached.len() > 0 {
        lemma_resting_phases_hold(state, reached.drop_last());
    }
}

/// A triggered envelope whose level reaches the peak and then the sustain
/// level is in the sustain phase, and stays there over all further samples.
pub proof fn lemma_triggered_envelope_sustains(state: EnvelopeState, further: Seq<bool>)
    ensures
        state.triggered().after_sample(true).after_sample(true).after_samples(further)
            == EnvelopeState::Sustain,
{
    lemma_resting_phases_hold(EnvelopeState::Sustain, further);
}

/// A released envelope is finished as soon as its level reaches silence, and
/// stays so over all further samples; until then it is in the release phase.
pub proof fn lemma_released_envelope_finishes(state: EnvelopeState, further: Seq<bool>)
    ensures
        state.released().after_sample(true).after_samples(further) == EnvelopeState::Idle,
        state != EnvelopeState::Idle ==> state.released().after_sample(false)
            == EnvelopeState::Release,
{
    lemma_resting_phases_hold(EnvelopeState::Idle, further);
}

/// The phase of the envelope of one voice.
#[derive(Debug, Clone, Copy, PartialEq, Eq, Structural)]
pub struct EnvelopeGenerator {
    pub state: EnvelopeState,
}

impl EnvelopeGenerator {
    /// An idle envelope.
    pub fn new() -> (envelope: Self)
        ensures
            envelope.state == EnvelopeState::Idle,
    {
        Self { state: EnvelopeState::Idle }
    }

    /// Starts the attack, from whatever phase the envelope is in.
    pub fn trigger(&mut self)
        ensures
            final(self).state == old(self).state.triggered(),
    {
        self.state = EnvelopeState::Attack;
    }

    /// Starts the release, unless the envelope is idle.
    pub fn release(&mut self)
        ensures
            final(self).state == old(self).state.released(),
    {
        if self.state != EnvelopeState::Idle {
            self.state = EnvelopeState::Release;
        }
    }

    /// The envelope is idle: it has ended or was never triggered.
    pub fn is_finished(&self) -> (finished: bool)
        ensures
            finished == (self.state == EnvelopeState::Idle),
    {
        self.state == EnvelopeState::Idle
    }

    /// The current phase.
    pub fn state(&self) -> (state: EnvelopeState)
        ensures
            state == self.state,
    {
        self.state
    }

    /// Tells whether the level moves during the current phase, so that the
    /// caller has to step it and to report when its goal is reached.
    pub fn is_moving(&self) -> (moving: bool)
        ensures
            moving == self.state.is_moving(),
    {
        match self.state {
            EnvelopeState::Attack | EnvelopeState::Decay | EnvelopeState::Release => true,
            EnvelopeState::Sustain | EnvelopeState::Idle => false,
        }
    }

    /// Takes the report of one sample: `reached` says whether the level that
    /// the phase heads for was reached on it.
    pub fn advance(&mut self, reached: bool)
        ensures
            final(self).state == old(self).state.after_sample(reached),
    {
        if reached {
            self.state = match self.state {
                EnvelopeState::Attack => EnvelopeState::Decay,
                EnvelopeState::Decay => EnvelopeState::Sustain,
                EnvelopeState::Release => EnvelopeState::Idle,
                EnvelopeState::Sustain => EnvelopeState::Sustain,
                EnvelopeState::Idle => EnvelopeState::Idle,
            };
        }
    }
}

} // verus!
