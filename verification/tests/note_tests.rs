use rustfmsynth::note::{NoteError, NoteEvent, NoteSource, NOTE_RANGE};

#[test]
fn note_number_out_of_range_is_rejected() {
    let result = NoteEvent::new(128, 100, true, NoteSource::Keyboard);
    assert_eq!(result, Err(NoteError::InvalidNoteNumber(128)));
    let result = NoteEvent::new(255, 0, false, NoteSource::Sequencer);
    assert_eq!(result, Err(NoteError::InvalidNoteNumber(255)));
}

#[test]
fn velocity_out_of_range_is_rejected() {
    let result = NoteEvent::new(60, 128, true, NoteSource::Keyboard);
    assert_eq!(result, Err(NoteError::InvalidVelocity(128)));
}

#[test]
fn note_number_is_checked_before_velocity() {
    let result = NoteEvent::new(200, 200, true, NoteSource::Keyboard);
    assert_eq!(result, Err(NoteError::InvalidNoteNumber(200)));
}

#[test]
fn lowest_and_highest_values_are_accepted() {
    let low = NoteEvent::new(0, 0, false, NoteSource::Sequencer).unwrap();
    assert_eq!(low.note_number, 0);
    assert_eq!(low.velocity, 0);
    assert!(!low.is_on);
    assert_eq!(low.source, NoteSource::Sequencer);
    let high = NoteEvent::new(127, 127, true, NoteSource::Keyboard).unwrap();
    assert_eq!(high.note_number, 127);
    assert_eq!(high.velocity, 127);
    assert!(high.is_on);
    assert_eq!(high.source, NoteSource::Keyboard);
}

#[test]
fn every_value_below_the_range_is_accepted() {
    for value in 0..NOTE_RANGE {
        assert!(NoteEvent::new(value, 64, true, NoteSource::Keyboard).is_ok());
        assert!(NoteEvent::new(64, value, true, NoteSource::Keyboard).is_ok());
    }
    for value in NOTE_RANGE..=255 {
        assert!(NoteEvent::new(value, 64, true, NoteSource::Keyboard).is_err());
        assert!(NoteEvent::new(64, value, true, NoteSource::Keyboard).is_err());
    }
}

#[test]
fn validate_agrees_with_construction() {
    let event = NoteEvent::new(69, 100, true, NoteSource::Keyboard).unwrap();
    assert_eq!(event.validate(), Ok(()));
    let bad_note =
        NoteEvent { note_number: 130, velocity: 10, is_on: true, source: NoteSource::Keyboard };
    assert_eq!(bad_note.validate(), Err(NoteError::InvalidNoteNumber(130)));
    let bad_velocity =
        NoteEvent { note_number: 13, velocity: 129, is_on: true, source: NoteSource::Keyboard };
    assert_eq!(bad_velocity.validate(), Err(NoteError::InvalidVelocity(129)));
}
