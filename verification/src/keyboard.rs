//! From key transitions to events.
//!
//! A key that plays a note starts the note when it goes down and stops it
//! when it comes up. A key that controls the waveforms acts when it goes
//! down and does nothing while it is held or when it comes up.

use crate::note::{NoteEvent, NoteSource, NOTE_RANGE};
use crate::operator::{CycleDirection, OperatorEvent};
use vstd::prelude::*;

verus! {

/// Velocity of the notes that the keyboard starts.
pub const KEY_DOWN_VELOCITY: u8 = 100;

/// Velocity of the events by which the keyboard stops a note.
pub const KEY_UP_VELOCITY: u8 = 0;

/// The note event that a key gives rise to, for a key that plays
/// `note_number`: none while the key stays as it was and none for a note
/// number out of range, a note-on when the key goes down and a note-off when
/// it comes up.
pub open spec fn note_event_for_key(note_number: u8, was_pressed: bool, is_pressed: bool) -> Option<
    NoteEvent,
> {
    if was_pressed == is_pressed || note_number >= NOTE_RANGE {
        None
    } else {
        Some(
            NoteEvent {
                note_number,
                velocity: if is_pressed {
                    KEY_DOWN_VELOCITY
                } else {
                    KEY_UP_VELOCITY
                },
                is_on: is_pressed,
                source: NoteSource::Keyboard,
            },
        )
    }
}

/// Decides what a note key asks for, from its state at the last look and its
/// state now.
pub fn key_transition(note_number: u8, was_pressed: bool, is_pressed: bool) -> (event: Option<
    NoteEvent,
>)
    ensures
        event == note_event_for_key(note_number, was_pressed, is_pressed),
        event matches Some(e) ==> e.is_valid(),
{
    if is_pressed == was_pressed {
        return None;
    }
    let velocity = if is_pressed {
        KEY_DOWN_VELOCITY
    } else {
        KEY_UP_VELOCITY
    };
    match NoteEvent::new(note_number, velocity, is_pressed, NoteSource::Keyboard) {
        Ok(event) => Some(event),
        Err(_) => None,
    }
}

/// Decides what a control key asks for: one step of all waveforms in the
/// direction of the key when the key goes down, and nothing otherwise.
pub fn control_transition(direction: CycleDirection, was_pressed: bool, is_pressed: bool) -> (event:
    Option<OperatorEvent>)
    ensures
        event == if is_pressed && !was_pressed {
            Some(OperatorEvent::CycleWaveform { direction })
        } else {
            None
        },
{
    if is_pressed && !was_pressed {
        Some(OperatorEvent::CycleWaveform { direction })
    } else {
        None
    }
}

} // verus!
