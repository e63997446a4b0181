use rustfmsynth::engine::{SynthEngine, VoiceJob};
use rustfmsynth::envelope::EnvelopeState;
use rustfmsynth::note::{NoteEvent, NoteSource};
use rustfmsynth::operator::{CycleDirection, OperatorEvent};
use rustfmsynth::voice::Voice;
use rustfmsynth::waveform::Waveform;

fn on(note: u8) -> NoteEvent {
    NoteEvent::new(note, 100, true, NoteSource::Keyboard).unwrap()
}

fn off(note: u8) -> NoteEvent {
    NoteEvent::new(note, 0, false, NoteSource::Keyboard).unwrap()
}

fn small_engine(voices: usize) -> SynthEngine {
    let mut engine = SynthEngine::new();
    engine.voices.truncate(voices);
    engine
}

#[test]
fn new_engine_is_in_the_default_configuration() {
    let engine = SynthEngine::new();
    assert_eq!(engine.voices.len(), 128);
    assert!(engine.voices.iter().all(|voice| *voice == Voice::new()));
    assert_eq!(engine.config.max_voices, 128);
    assert_eq!(engine.config.operators_per_voice, 12);
    assert_eq!(engine.buffer_size, 1024);
    assert_eq!(engine.operators.len(), 12);
    assert_eq!(engine.operators[0].waveform_generator.waveform, Waveform::Triangle);
    assert_eq!(engine.operators[1].waveform_generator.waveform, Waveform::Sawtooth);
    for operator in &engine.operators[2..] {
        assert_eq!(operator.waveform_generator.waveform, Waveform::Sine);
    }
    assert_eq!(engine.algorithm.matrix.len(), 12);
    assert_eq!(engine.algorithm.matrix[0][0], Some(2));
    assert_eq!(engine.algorithm.carriers, vec![0]);
    assert_eq!(SynthEngine::default().voices.len(), 128);
}

#[test]
fn note_on_takes_the_first_free_voice() {
    let mut engine = SynthEngine::new();
    assert_eq!(engine.find_free_voice(), Some(0));
    assert_eq!(engine.note_on(60, NoteSource::Keyboard), Some(0));
    assert_eq!(engine.find_free_voice(), Some(1));
    assert_eq!(engine.note_on(64, NoteSource::Keyboard), Some(1));
    assert_eq!(engine.note_on(67, NoteSource::Sequencer), Some(2));
    assert!(engine.voices[0].active);
    assert_eq!(engine.voices[0].note_number, 60);
    assert_eq!(engine.voices[1].note_number, 64);
    assert_eq!(engine.voices[2].note_source, Some(NoteSource::Sequencer));
    assert_eq!(engine.voices[3], Voice::new());
}

#[test]
fn activated_voice_is_left_out_of_the_free_search() {
    let mut engine = small_engine(2);
    let slot = engine.note_on(60, NoteSource::Keyboard).unwrap();
    assert!(!engine.voices[slot].is_finished());
    assert_ne!(engine.find_free_voice(), Some(slot));
}

#[test]
fn note_on_steals_the_first_voice_when_none_is_free() {
    let mut engine = small_engine(3);
    engine.note_on(60, NoteSource::Keyboard);
    engine.note_on(62, NoteSource::Keyboard);
    engine.note_on(64, NoteSource::Keyboard);
    assert_eq!(engine.find_free_voice(), None);
    assert_eq!(engine.steal_voice(), Some(0));
    engine.voices[0].start_buffer(100);
    assert_eq!(engine.note_on(65, NoteSource::Keyboard), Some(0));
    assert_eq!(engine.voices[0].note_number, 65);
    assert_eq!(engine.voices[0].samples_elapsed_since_trigger, 0);
    assert_eq!(engine.voices[1].note_number, 62);
    assert_eq!(engine.voices[2].note_number, 64);
}

#[test]
fn empty_pool_gives_no_voice() {
    let mut engine = small_engine(0);
    assert_eq!(engine.find_free_voice(), None);
    assert_eq!(engine.steal_voice(), None);
    assert_eq!(engine.note_on(60, NoteSource::Keyboard), None);
    assert!(engine.voices.is_empty());
}

#[test]
fn note_off_releases_every_voice_of_the_note() {
    let mut engine = small_engine(4);
    engine.note_on(60, NoteSource::Keyboard);
    engine.note_on(62, NoteSource::Keyboard);
    engine.note_on(60, NoteSource::Keyboard);
    engine.note_off(60, NoteSource::Keyboard);
    assert!(!engine.voices[0].active);
    assert_eq!(engine.voices[0].envelope.state(), EnvelopeState::Release);
    assert!(engine.voices[1].active);
    assert!(!engine.voices[2].active);
    assert_eq!(engine.voices[2].envelope.state(), EnvelopeState::Release);
    assert_eq!(engine.voices[3], Voice::new());
}

#[test]
fn note_off_of_another_source_releases_nothing() {
    let mut engine = small_engine(2);
    engine.note_on(60, NoteSource::Keyboard);
    let before = engine.voices.clone();
    engine.note_off(60, NoteSource::Sequencer);
    assert_eq!(engine.voices, before);
    engine.note_off(61, NoteSource::Keyboard);
    assert_eq!(engine.voices, before);
}

#[test]
fn released_voice_is_taken_again_once_it_is_finished() {
    let mut engine = small_engine(2);
    engine.note_on(60, NoteSource::Keyboard);
    engine.note_on(62, NoteSource::Keyboard);
    engine.note_off(60, NoteSource::Keyboard);
    assert_eq!(engine.find_free_voice(), None);
    engine.voices[0].envelope.advance(true);
    assert_eq!(engine.find_free_voice(), Some(0));
    assert_eq!(engine.note_on(64, NoteSource::Keyboard), Some(0));
}

#[test]
fn note_events_are_applied_in_order() {
    let mut engine = small_engine(3);
    engine.process_note_events(&vec![on(60), on(62), off(60), on(64)]);
    assert!(!engine.voices[0].active);
    assert_eq!(engine.voices[0].note_number, 60);
    assert_eq!(engine.voices[0].envelope.state(), EnvelopeState::Release);
    assert!(engine.voices[1].active);
    assert_eq!(engine.voices[1].note_number, 62);
    assert!(engine.voices[2].active);
    assert_eq!(engine.voices[2].note_number, 64);
    assert_eq!(engine.voices.len(), 3);
}

#[test]
fn no_note_event_changes_nothing() {
    let mut engine = small_engine(3);
    engine.note_on(60, NoteSource::Keyboard);
    let before = engine.voices.clone();
    engine.process_note_events(&Vec::new());
    assert_eq!(engine.voices, before);
}

#[test]
fn single_note_event_is_dispatched_by_its_kind() {
    let mut engine = small_engine(2);
    engine.handle_note_event(on(70));
    assert!(engine.voices[0].active);
    engine.handle_note_event(off(70));
    assert!(!engine.voices[0].active);
}

#[test]
fn operator_events_reach_every_operator() {
    let mut engine = SynthEngine::new();
    let forward = OperatorEvent::CycleWaveform { direction: CycleDirection::Forward };
    let backward = OperatorEvent::CycleWaveform { direction: CycleDirection::Backward };
    engine.process_operator_events(&vec![forward]);
    assert_eq!(engine.operators[0].waveform_generator.waveform, Waveform::Noise);
    assert_eq!(engine.operators[1].waveform_generator.waveform, Waveform::Triangle);
    assert_eq!(engine.operators[2].waveform_generator.waveform, Waveform::Square);
    assert_eq!(engine.operators[11].waveform_generator.waveform, Waveform::Square);
    engine.process_operator_events(&vec![backward, backward, forward, backward]);
    assert_eq!(engine.operators[0].waveform_generator.waveform, Waveform::Sawtooth);
    assert_eq!(engine.operators[1].waveform_generator.waveform, Waveform::Square);
    assert_eq!(engine.operators[2].waveform_generator.waveform, Waveform::Noise);
}

#[test]
fn five_forward_events_leave_the_operators_as_they_were() {
    let mut engine = SynthEngine::new();
    let forward = OperatorEvent::CycleWaveform { direction: CycleDirection::Forward };
    engine.process_operator_events(&vec![forward; 5]);
    assert_eq!(engine.operators[0].waveform_generator.waveform, Waveform::Triangle);
    assert_eq!(engine.operators[1].waveform_generator.waveform, Waveform::Sawtooth);
    assert_eq!(engine.operators[5].waveform_generator.waveform, Waveform::Sine);
}

#[test]
fn sounding_voices_are_those_that_are_not_free() {
    let mut engine = small_engine(5);
    assert!(engine.sounding_voices().is_empty());
    engine.process_note_events(&vec![on(60), on(62), on(64), off(62)]);
    engine.voices[1].envelope.advance(true);
    assert_eq!(engine.sounding_voices(), vec![0, 2]);
    engine.note_off(60, NoteSource::Keyboard);
    assert_eq!(engine.sounding_voices(), vec![0, 2]);
}

#[test]
fn buffer_gives_a_job_to_every_sounding_voice() {
    let mut engine = small_engine(4);
    engine.process_note_events(&vec![on(60), on(62), on(64), off(62)]);
    let jobs = engine.start_buffer(256);
    assert_eq!(
        jobs,
        vec![
            VoiceJob { voice: 0, note_number: 60, start_sample_index: 0 },
            VoiceJob { voice: 1, note_number: 62, start_sample_index: 0 },
            VoiceJob { voice: 2, note_number: 64, start_sample_index: 0 },
        ]
    );
    engine.voices[1].envelope.advance(true);
    let jobs = engine.start_buffer(100);
    assert_eq!(
        jobs,
        vec![
            VoiceJob { voice: 0, note_number: 60, start_sample_index: 256 },
            VoiceJob { voice: 2, note_number: 64, start_sample_index: 256 },
        ]
    );
    assert_eq!(engine.voices[0].samples_elapsed_since_trigger, 356);
    assert_eq!(engine.voices[1].samples_elapsed_since_trigger, 256);
    assert_eq!(engine.voices[3], Voice::new());
}

#[test]
fn empty_buffer_gives_no_job_and_changes_no_voice() {
    let mut engine = small_engine(3);
    engine.process_note_events(&vec![on(60), on(62)]);
    engine.start_buffer(64);
    let before = engine.voices.clone();
    assert!(engine.start_buffer(0).is_empty());
    assert_eq!(engine.voices, before);
}

#[test]
fn engine_without_sounding_voice_has_no_job() {
    let mut engine = SynthEngine::new();
    assert!(engine.start_buffer(512).is_empty());
    assert!(engine.voices.iter().all(|voice| *voice == Voice::new()));
}

#[test]
fn buffer_size_is_recorded() {
    let mut engine = SynthEngine::new();
    engine.set_buffer_size(480);
    assert_eq!(engine.buffer_size, 480);
}

#[test]
fn next_buffer_applies_the_events_before_it_opens_the_buffer() {
    let mut engine = small_engine(3);
    let forward = OperatorEvent::CycleWaveform { direction: CycleDirection::Forward };
    let jobs = engine.next_buffer(&vec![on(60), on(64), off(60)], &vec![forward, forward], 128);
    assert_eq!(
        jobs,
        vec![
            VoiceJob { voice: 0, note_number: 60, start_sample_index: 0 },
            VoiceJob { voice: 1, note_number: 64, start_sample_index: 0 },
        ]
    );
    assert!(!engine.voices[0].active);
    assert!(engine.voices[1].active);
    assert_eq!(engine.voices[0].samples_elapsed_since_trigger, 128);
    assert_eq!(engine.operators[0].waveform_generator.waveform, Waveform::Sine);
    assert_eq!(engine.operators[2].waveform_generator.waveform, Waveform::Sawtooth);
    let jobs = engine.next_buffer(&vec![on(67)], &Vec::new(), 0);
    assert!(jobs.is_empty());
    assert!(engine.voices[2].active);
    assert_eq!(engine.voices[0].samples_elapsed_since_trigger, 128);
}
