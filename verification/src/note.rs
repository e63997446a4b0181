//! Note events: the requests to start and to stop a note.

use vstd::prelude::*;

verus! {

/// Number of notes: valid note numbers and velocities are those below it.
pub const NOTE_RANGE: u8 = 128;

/// Where a note comes from. A note is stopped only by an event of the source
/// that started it.
#[derive(Debug, Clone, Copy, PartialEq, Eq, Hash, Structural)]
pub enum NoteSource {
    Sequencer,
    Keyboard,
}

/// Why a note event was rejected. Each variant carries the rejected value.
#[derive(Debug, Clone, Copy, PartialEq, Eq, Structural)]
pub enum NoteError {
    InvalidNoteNumber(u8),
    InvalidVelocity(u8),
}

/// A request to start (`is_on`) or to stop a note.
#[derive(Debug, Clone, Copy, PartialEq, Eq, Structural)]
pub struct NoteEvent {
    pub note_number: u8,
    pub velocity: u8,
    pub is_on: bool,
    pub source: NoteSource,
}

/// What the validation of a note number and a velocity gives: the note
/// number is looked at first.
pub open spec fn validation(note_number: u8, velocity: u8) -> Result<(), NoteError> {
    if note_number >= NOTE_RANGE {
        Err(NoteError::InvalidNoteNumber(note_number))
    } else if velocity >= NOTE_RANGE {
        Err(NoteError::InvalidVelocity(velocity))
    } else {
        Ok(())
    }
}

impl NoteEvent {
    /// Note number and velocity are both in range.
    pub open spec fn is_valid(&self) -> bool {
        self.note_number < NOTE_RANGE && self.velocity < NOTE_RANGE
    }

    /// Builds a note event, or says which of note number and velocity is out
    /// of range.
    pub fn new(note_number: u8, velocity: u8, is_on: bool, source: NoteSource) -> (result: Result<
        Self,
        NoteError,
    >)
        ensures
            match result {
                Ok(event) => validation(note_number, velocity) is Ok && event == (NoteEvent {
                    note_number,
                    velocity,
                    is_on,
                    source,
                }) && event.is_valid(),
                Err(error) => validation(note_number, velocity) == Err::<(), NoteError>(error),
            },
    {
        if note_number >= NOTE_RANGE {
            return Err(NoteError::InvalidNoteNumber(note_number));
        }
        if velocity >= NOTE_RANGE {
            return Err(NoteError::InvalidVelocity(velocity));
        }
        Ok(Self { note_number, velocity, is_on, source })
    }

    /// Checks again that note number and velocity are in range.
    pub fn validate(&self) -> (result: Result<(), NoteError>)
        ensures
            result == validation(self.note_number, self.velocity),
            result is Ok <==> self.is_valid(),
    {
        if self.note_number >= NOTE_RANGE {
            return Err(NoteError::InvalidNoteNumber(self.note_number));
        }
        if self.velocity >= NOTE_RANGE {
            return Err(NoteError::InvalidVelocity(self.velocity));
        }
        Ok(())
    }
}

} // verus!
