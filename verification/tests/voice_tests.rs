use rustfmsynth::envelope::EnvelopeState;
use rustfmsynth::note::NoteSource;
use rustfmsynth::voice::Voice;

#[test]
fn new_voice_is_finished() {
    let voice = Voice::new();
    assert!(voice.is_finished());
    assert!(!voice.active);
    assert_eq!(voice.note_number, 0);
    assert_eq!(voice.note_source, None);
    assert_eq!(voice.samples_elapsed_since_trigger, 0);
    assert_eq!(Voice::default(), voice);
}

#[test]
fn activated_voice_is_not_finished() {
    let mut voice = Voice::new();
    voice.activate(69, Some(NoteSource::Keyboard));
    assert!(!voice.is_finished());
    assert!(voice.active);
    assert_eq!(voice.note_number, 69);
    assert_eq!(voice.note_source, Some(NoteSource::Keyboard));
    assert_eq!(voice.envelope.state(), EnvelopeState::Attack);
    assert_eq!(voice.samples_elapsed_since_trigger, 0);
}

#[test]
fn released_voice_sounds_until_its_envelope_has_ended() {
    let mut voice = Voice::new();
    voice.activate(60, Some(NoteSource::Sequencer));
    voice.release();
    assert!(!voice.active);
    assert!(!voice.is_finished());
    assert_eq!(voice.envelope.state(), EnvelopeState::Release);
    assert_eq!(voice.start_buffer(128), Some(0));
    voice.envelope.advance(false);
    assert!(!voice.is_finished());
    voice.envelope.advance(true);
    assert!(voice.is_finished());
    assert_eq!(voice.start_buffer(128), None);
}

#[test]
fn second_release_changes_nothing() {
    let mut voice = Voice::new();
    voice.activate(60, Some(NoteSource::Keyboard));
    voice.release();
    let once = voice;
    voice.release();
    assert_eq!(voice, once);
    let mut free = Voice::new();
    free.release();
    assert_eq!(free, Voice::new());
}

#[test]
fn sample_count_moves_on_by_the_buffer_length() {
    let mut voice = Voice::new();
    voice.activate(72, Some(NoteSource::Keyboard));
    assert_eq!(voice.start_buffer(512), Some(0));
    assert_eq!(voice.start_buffer(512), Some(512));
    assert_eq!(voice.start_buffer(100), Some(1024));
    assert_eq!(voice.samples_elapsed_since_trigger, 1124);
}

#[test]
fn activation_resets_the_sample_count() {
    let mut voice = Voice::new();
    voice.activate(72, Some(NoteSource::Keyboard));
    voice.start_buffer(512);
    voice.release();
    voice.activate(74, Some(NoteSource::Keyboard));
    assert_eq!(voice.samples_elapsed_since_trigger, 0);
    assert!(voice.active);
    assert_eq!(voice.envelope.state(), EnvelopeState::Attack);
    assert_eq!(voice.start_buffer(64), Some(0));
}

#[test]
fn empty_buffer_changes_nothing() {
    let mut voice = Voice::new();
    voice.activate(72, Some(NoteSource::Keyboard));
    voice.start_buffer(300);
    let before = voice;
    assert_eq!(voice.start_buffer(0), None);
    assert_eq!(voice, before);
}

#[test]
fn free_voice_fills_no_buffer() {
    let mut voice = Voice::new();
    assert_eq!(voice.start_buffer(256), None);
    assert_eq!(voice, Voice::new());
}

#[test]
fn sample_count_wraps_around_at_the_end_of_its_range() {
    let mut voice = Voice::new();
    voice.activate(72, Some(NoteSource::Keyboard));
    voice.samples_elapsed_since_trigger = u64::MAX - 9;
    assert_eq!(voice.start_buffer(16), Some(u64::MAX - 9));
    assert_eq!(voice.samples_elapsed_since_trigger, 6);
}
