use rustfmsynth::algorithm::{Algorithm, ConfigurationError};
use rustfmsynth::note::{NoteError, NoteEvent, NoteSource};

#[test]
fn note_number_message_names_the_value() {
    assert_eq!(
        NoteError::InvalidNoteNumber(128).message(),
        "Invalid MIDI note number: 128. Must be 0-127."
    );
    let error = NoteEvent::new(255, 0, true, NoteSource::Keyboard).unwrap_err();
    assert_eq!(error.message(), "Invalid MIDI note number: 255. Must be 0-127.");
}

#[test]
fn velocity_message_names_the_value() {
    assert_eq!(
        NoteError::InvalidVelocity(200).message(),
        "Invalid MIDI velocity: 200. Must be 0-127."
    );
}

#[test]
fn single_digit_is_written_without_leading_zero() {
    assert_eq!(
        NoteError::InvalidVelocity(7).message(),
        "Invalid MIDI velocity: 7. Must be 0-127."
    );
    assert_eq!(
        NoteError::InvalidNoteNumber(0).message(),
        "Invalid MIDI note number: 0. Must be 0-127."
    );
}

#[test]
fn non_square_message_is_fixed() {
    assert_eq!(ConfigurationError::NonSquareMatrix.message(), "Adjacency matrix must be square.");
}

#[test]
fn carrier_message_names_carrier_and_operator_count() {
    let error = Algorithm::new(vec![vec![None; 3]; 3], vec![1, 40]).unwrap_err();
    assert_eq!(error.message(), "Carrier index 40 out of bounds for 3 operators.");
    let error = ConfigurationError::CarrierOutOfBounds { carrier: 1234567, num_operators: 0 };
    assert_eq!(error.message(), "Carrier index 1234567 out of bounds for 0 operators.");
}
