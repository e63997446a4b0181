//! The waveform set of an oscillator and the way it is cycled.

use vstd::prelude::*;

verus! {

/// The shapes an oscillator can produce.
///
/// The variants stand in cycling order: `Sine`, `Square`, `Sawtooth`,
/// `Triangle`, `Noise`, and then `Sine` again.
#[derive(Debug, Clone, Copy, PartialEq, Eq, Structural)]
pub enum Waveform {
    Sine,
    Square,
    Sawtooth,
    Triangle,
    Noise,
}

impl Waveform {
    /// Position of the waveform in the cycle, from 0 to 4.
    pub open spec fn position(self) -> int {
        match self {
            Waveform::Sine => 0,
            Waveform::Square => 1,
            Waveform::Sawtooth => 2,
            Waveform::Triangle => 3,
            Waveform::Noise => 4,
        }
    }

    /// The waveform at a position of the cycle; positions are taken modulo 5.
    pub open spec fn at(position: int) -> Waveform {
        let p = position % 5;
        if p == 0 {
            Waveform::Sine
        } else if p == 1 {
            Waveform::Square
        } else if p == 2 {
            Waveform::Sawtooth
        } else if p == 3 {
            Waveform::Triangle
        } else {
            Waveform::Noise
        }
    }

    /// The waveform reached from `self` by `steps` steps along the cycle;
    /// a negative count steps backward.
    pub open spec fn cycled(self, steps: int) -> Waveform {
        Waveform::at(self.position() + steps)
    }

    /// The waveform that follows `self` in the cycle.
    pub open spec fn successor(self) -> Waveform {
        self.cycled(1)
    }

    /// The waveform that precedes `self` in the cycle.
    pub open spec fn predecessor(self) -> Waveform {
        self.cycled(-1)
    }
}

/// Stepping forward five times returns to the waveform one started from, and
/// no smaller positive number of steps does.
pub proof fn lemma_forward_cycle_has_length_five(w: Waveform)
    ensures
        w.successor().successor().successor().successor().successor() == w,
        w.successor() != w,
        w.successor().successor() != w,
        w.successor().successor().successor() != w,
        w.successor().successor().successor().successor() != w,
{
}

/// One step backward undoes one step forward, and one step forward undoes one
/// step backward.
pub proof fn lemma_backward_undoes_forward(w: Waveform)
    ensures
        w.successor().predecessor() == w,
        w.predecessor().successor() == w,
{
}

/// Steps along the cycle add up, and a whole number of turns changes nothing.
pub proof fn lemma_cycled_composes(w: Waveform, a: int, b: int)
    ensures
        w.cycled(a).cycled(b) == w.cycled(a + b),
        w.cycled(0) == w,
        w.cycled(a + 5) == w.cycled(a),
{
    let p = w.position();
    assert((p + a) % 5 == Waveform::at(p + a).position());
    assert(((p + a) % 5 + b) % 5 == (p + a + b) % 5) by (nonlinear_arith);
    assert((p + a + 5) % 5 == (p + a) % 5) by (nonlinear_arith);
}

/// Holds the waveform that an operator currently plays.
#[derive(Debug, Clone, Copy, PartialEq, Eq, Structural)]
pub struct WaveformGenerator {
    pub waveform: Waveform,
}

impl WaveformGenerator {
    /// A generator set to `waveform`.
    pub fn new(waveform: Waveform) -> (generator: Self)
        ensures
            generator.waveform == waveform,
    {
        Self { waveform }
    }

    /// Moves to the waveform that follows the current one in the cycle.
    pub fn get_next_waveform(&mut self)
        ensures
            final(self).waveform == old(self).waveform.successor(),
    {
        self.waveform = match self.waveform {
            Waveform::Noise => Waveform::Sine,
            Waveform::Sine => Waveform::Square,
            Waveform::Square => Waveform::Sawtooth,
            Waveform::Sawtooth => Waveform::Triangle,
            Waveform::Triangle => Waveform::Noise,
        };
    }

    /// Moves to the waveform that precedes the current one in the cycle.
    pub fn get_previous_waveform(&mut self)
        ensures
            final(self).waveform == old(self).waveform.predecessor(),
    {
        self.waveform = match self.waveform {
            Waveform::Noise => Waveform::Triangle,
            Waveform::Sine => Waveform::Noise,
            Waveform::Square => Waveform::Sine,
            Waveform::Sawtooth => Waveform::Square,
            Waveform::Triangle => Waveform::Sawtooth,
        };
    }

    /// Replaces the waveform.
    pub fn set_waveform(&mut self, waveform: Waveform)
        ensures
            final(self).waveform == waveform,
    {
        self.waveform = waveform;
    }
}

} // verus!
