//! Operators and the events that change them.
//!
//! An operator is one oscillator of the synthesizer. The operators are shared
//! by all voices, so a change to one of them is heard in every voice from the
//! next buffer on.

use crate::waveform::{Waveform, WaveformGenerator};
use vstd::prelude::*;

verus! {

/// Direction in which a waveform is cycled.
#[derive(Clone, Copy, Debug, PartialEq, Eq, Structural)]
pub enum CycleDirection {
    Forward,
    Backward,
}

impl CycleDirection {
    /// The step that the direction stands for: one forward or one backward.
    pub open spec fn step(self) -> int {
        match self {
            CycleDirection::Forward => 1,
            CycleDirection::Backward => -1,
        }
    }
}

/// A change requested for the operators.
#[derive(Clone, Copy, Debug, PartialEq, Eq, Structural)]
pub enum OperatorEvent {
    CycleWaveform { direction: CycleDirection },
}

impl OperatorEvent {
    /// Number of steps by which the event moves a waveform along the cycle.
    pub open spec fn steps(self) -> int {
        match self {
            OperatorEvent::CycleWaveform { direction } => direction.step(),
        }
    }
}

/// One oscillator: the waveform it plays.
#[derive(Debug, Clone, Copy, PartialEq, Eq, Structural)]
pub struct Operator {
    pub waveform_generator: WaveformGenerator,
}

impl Operator {
    /// The waveform that the operator plays.
    pub open spec fn waveform(&self) -> Waveform {
        self.waveform_generator.waveform
    }

    /// An operator that plays a sine.
    pub fn new() -> (operator: Self)
        ensures
            operator.waveform() == Waveform::Sine,
    {
        Self { waveform_generator: WaveformGenerator::new(Waveform::Sine) }
    }

    /// Moves the waveform one step along the cycle, in the given direction.
    pub fn cycle_waveform(&mut self, direction: CycleDirection)
        ensures
            final(self).waveform() == old(self).waveform().cycled(direction.step()),
    {
        match direction {
            CycleDirection::Forward => {
                self.waveform_generator.get_next_waveform();
            },
            CycleDirection::Backward => {
                self.waveform_generator.get_previous_waveform();
            },
        }
    }

    /// Replaces the waveform.
    pub fn set_waveform(&mut self, waveform: Waveform)
        ensures
            final(self).waveform() == waveform,
    {
        self.waveform_generator.set_waveform(waveform);
    }

    /// Applies a requested change.
    pub fn apply_event(&mut self, event: OperatorEvent)
        ensures
            final(self).waveform() == old(self).waveform().cycled(event.steps()),
    {
        match event {
            OperatorEvent::CycleWaveform { direction } => {
                self.cycle_waveform(direction);
            },
        }
    }
}

impl Default for Operator {
    fn default() -> (operator: Self)
        ensures
            operator.waveform() == Waveform::Sine,
    {
        Operator::new()
    }
}

} // verus!
