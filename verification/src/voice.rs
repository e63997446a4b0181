//! One voice of the pool.
//!
//! A voice is free while it is neither active nor sounding, active from its
//! activation to its release, and releasing from then until its envelope has
//! ended. Only a free voice is handed out for a new note without stealing.

use crate::envelope::{EnvelopeGenerator, EnvelopeState};
use crate::note::NoteSource;
use vstd::prelude::*;

verus! {

/// One slot of the voice pool.
#[derive(Debug, Clone, Copy, PartialEq, Eq, Structural)]
pub struct Voice {
    /// The voice plays a note that has not been released.
    pub active: bool,
    /// The note that the voice plays or played last.
    pub note_number: u8,
    /// Where that note came from.
    pub note_source: Option<NoteSource>,
    /// Phase of the envelope of the voice.
    pub envelope: EnvelopeGenerator,
    /// Number of samples produced since the voice was activated.
    pub samples_elapsed_since_trigger: u64,
}

impl Voice {
    /// A voice that was never activated.
    pub open spec fn fresh() -> Voice {
        Voice {
            active: false,
            note_number: 0,
            note_source: None,
            envelope: EnvelopeGenerator { state: EnvelopeState::Idle },
            samples_elapsed_since_trigger: 0,
        }
    }

    /// The voice is free: not active, and its envelope has ended.
    pub open spec fn is_free(self) -> bool {
        !self.active && self.envelope.state == EnvelopeState::Idle
    }

    /// The voice after its activation for a note: active, its envelope
    /// triggered, its sample count back at zero.
    pub open spec fn activated(self, note_number: u8, note_source: Option<NoteSource>) -> Voice {
        Voice {
            active: true,
            note_number,
            note_source,
            envelope: EnvelopeGenerator { state: self.envelope.state.triggered() },
            samples_elapsed_since_trigger: 0,
        }
    }

    /// The voice after a release: no longer active, its envelope released. A
    /// free voice is not changed.
    pub open spec fn released(self) -> Voice {
        if self.is_free() {
            self
        } else {
            Voice {
                active: false,
                envelope: EnvelopeGenerator { state: self.envelope.state.released() },
                ..self
            }
        }
    }

    /// The voice after it has produced `buffer_len` samples. A free voice
    /// produces none, so it is not changed; the count of the others wraps
    /// around at the end of its range.
    pub open spec fn after_buffer(self, buffer_len: usize) -> Voice {
        if self.is_free() || buffer_len == 0 {
            self
        } else {
            Voice {
                samples_elapsed_since_trigger: ((self.samples_elapsed_since_trigger + buffer_len)
                    % 0x1_0000_0000_0000_0000) as u64,
                ..self
            }
        }
    }

    /// The voice after one sample of its envelope: `reached` says whether
    /// the level that the phase of the envelope heads for was reached on it.
    pub open spec fn after_sample(self, reached: bool) -> Voice {
        Voice {
            envelope: EnvelopeGenerator { state: self.envelope.state.after_sample(reached) },
            ..self
        }
    }

    /// A new, free voice.
    pub fn new() -> (voice: Self)
        ensures
            voice == Voice::fresh(),
            voice.is_free(),
    {
        Self {
            active: false,
            note_number: 0,
            note_source: None,
            envelope: EnvelopeGenerator::new(),
            samples_elapsed_since_trigger: 0,
        }
    }

    /// Activates the voice for a note, whether it is free, active or
    /// releasing: the envelope is triggered and the sample count starts
    /// again at zero.
    pub fn activate(&mut self, note_number: u8, note_source: Option<NoteSource>)
        ensures
            *final(self) == old(self).activated(note_number, note_source),
            !final(self).is_free(),
    {
        self.active = true;
        self.note_number = note_number;
        self.note_source = note_source;
        self.samples_elapsed_since_trigger = 0;
        self.envelope.trigger();
    }

    /// Releases the voice: it is no longer active and its envelope starts
    /// the release. A free voice is not changed, so a second release of the
    /// same note does nothing more.
    pub fn release(&mut self)
        ensures
            *final(self) == old(self).released(),
            !final(self).active,
    {
        if self.active || !self.envelope.is_finished() {
            self.envelope.release();
            self.active = false;
        }
    }

    /// Tells whether the voice is free, and so may be taken for a new note.
    pub fn is_finished(&self) -> (finished: bool)
        ensures
            finished == self.is_free(),
    {
        !self.active && self.envelope.is_finished()
    }

    /// Accounts for a buffer of `buffer_len` samples that the voice is asked
    /// to fill. A free voice and an empty buffer ask for nothing: the result
    /// is `None` and the voice is not changed. Otherwise the result is the
    /// number of samples produced before this buffer, at which the buffer
    /// starts, and the count moves on by the length of the buffer.
    pub fn start_buffer(&mut self, buffer_len: usize) -> (start_sample_index: Option<u64>)
        ensures
            *final(self) == old(self).after_buffer(buffer_len),
            start_sample_index == if old(self).is_free() || buffer_len == 0 {
                None
            } else {
                Some(old(self).samples_elapsed_since_trigger)
            },
    {
        if self.is_finished() {
            return None;
        }
        if buffer_len == 0 {
            return None;
        }
        let start = self.samples_elapsed_since_trigger;
        self.samples_elapsed_since_trigger = start.wrapping_add(buffer_len as u64);
        Some(start)
    }
}

impl Default for Voice {
    fn default() -> (voice: Self)
        ensures
            voice == Voice::fresh(),
    {
        Voice::new()
    }
}

/// A new voice is free; an activated voice is not, whatever it was before;
/// and a released voice goes on sounding until the level of its envelope
/// has reached silence, and is free from then on.
pub proof fn lemma_voice_life_cycle(voice: Voice, note_number: u8, note_source: Option<NoteSource>)
    ensures
        Voice::fresh().is_free(),
        !voice.activated(note_number, note_source).is_free(),
        !voice.activated(note_number, note_source).released().is_free(),
        !voice.activated(note_number, note_source).released().after_sample(false).is_free(),
        voice.activated(note_number, note_source).released().after_sample(true).is_free(),
{
}

/// Releasing a voice twice is the same as releasing it once.
pub proof fn lemma_release_is_idempotent(voice: Voice)
    ensures
        voice.released().released() == voice.released(),
{
}

/// An empty buffer changes no voice, and no buffer changes a free voice.
pub proof fn lemma_empty_buffer_changes_nothing(voice: Voice, buffer_len: usize)
    ensures
        voice.after_buffer(0) == voice,
        voice.is_free() ==> voice.after_buffer(buffer_len) == voice,
{
}

} // verus!
