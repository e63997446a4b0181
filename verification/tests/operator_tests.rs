use rustfmsynth::config::SynthConfig;
use rustfmsynth::operator::{CycleDirection, Operator, OperatorEvent};
use rustfmsynth::waveform::Waveform;

#[test]
fn new_operator_plays_a_sine() {
    assert_eq!(Operator::new().waveform_generator.waveform, Waveform::Sine);
    assert_eq!(Operator::default().waveform_generator.waveform, Waveform::Sine);
}

#[test]
fn operator_cycles_in_both_directions() {
    let mut operator = Operator::new();
    operator.cycle_waveform(CycleDirection::Forward);
    assert_eq!(operator.waveform_generator.waveform, Waveform::Square);
    operator.cycle_waveform(CycleDirection::Backward);
    assert_eq!(operator.waveform_generator.waveform, Waveform::Sine);
    operator.cycle_waveform(CycleDirection::Backward);
    assert_eq!(operator.waveform_generator.waveform, Waveform::Noise);
}

#[test]
fn operator_takes_a_waveform_directly() {
    let mut operator = Operator::new();
    operator.set_waveform(Waveform::Sawtooth);
    assert_eq!(operator.waveform_generator.waveform, Waveform::Sawtooth);
}

#[test]
fn operator_event_moves_the_waveform_one_step() {
    let mut operator = Operator::new();
    operator.set_waveform(Waveform::Triangle);
    operator.apply_event(OperatorEvent::CycleWaveform { direction: CycleDirection::Forward });
    assert_eq!(operator.waveform_generator.waveform, Waveform::Noise);
    operator.apply_event(OperatorEvent::CycleWaveform { direction: CycleDirection::Backward });
    operator.apply_event(OperatorEvent::CycleWaveform { direction: CycleDirection::Backward });
    assert_eq!(operator.waveform_generator.waveform, Waveform::Sawtooth);
}

#[test]
fn default_configuration_has_its_documented_sizes() {
    let config = SynthConfig::default();
    assert_eq!(config.max_voices, 128);
    assert_eq!(config.operators_per_voice, 12);
}
