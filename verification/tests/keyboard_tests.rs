use rustfmsynth::keyboard::{control_transition, key_transition};
use rustfmsynth::note::{NoteEvent, NoteSource};
use rustfmsynth::operator::{CycleDirection, OperatorEvent};

#[test]
fn key_going_down_starts_its_note() {
    assert_eq!(
        key_transition(69, false, true),
        Some(NoteEvent { note_number: 69, velocity: 100, is_on: true, source: NoteSource::Keyboard })
    );
}

#[test]
fn key_coming_up_stops_its_note() {
    assert_eq!(
        key_transition(85, true, false),
        Some(NoteEvent { note_number: 85, velocity: 0, is_on: false, source: NoteSource::Keyboard })
    );
}

#[test]
fn key_that_stays_as_it_was_gives_no_event() {
    assert_eq!(key_transition(69, true, true), None);
    assert_eq!(key_transition(69, false, false), None);
}

#[test]
fn key_for_a_note_out_of_range_gives_no_event() {
    assert_eq!(key_transition(128, false, true), None);
    assert_eq!(key_transition(200, true, false), None);
}

#[test]
fn control_key_acts_when_it_goes_down_only() {
    assert_eq!(
        control_transition(CycleDirection::Forward, false, true),
        Some(OperatorEvent::CycleWaveform { direction: CycleDirection::Forward })
    );
    assert_eq!(
        control_transition(CycleDirection::Backward, false, true),
        Some(OperatorEvent::CycleWaveform { direction: CycleDirection::Backward })
    );
    assert_eq!(control_transition(CycleDirection::Forward, true, true), None);
    assert_eq!(control_transition(CycleDirection::Forward, true, false), None);
    assert_eq!(control_transition(CycleDirection::Backward, false, false), None);
}
