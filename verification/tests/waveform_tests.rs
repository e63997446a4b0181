use rustfmsynth::waveform::{Waveform, WaveformGenerator};

#[test]
fn forward_cycle_visits_all_five_waveforms_in_order() {
    let mut generator = WaveformGenerator::new(Waveform::Sine);
    generator.get_next_waveform();
    assert_eq!(generator.waveform, Waveform::Square);
    generator.get_next_waveform();
    assert_eq!(generator.waveform, Waveform::Sawtooth);
    generator.get_next_waveform();
    assert_eq!(generator.waveform, Waveform::Triangle);
    generator.get_next_waveform();
    assert_eq!(generator.waveform, Waveform::Noise);
    generator.get_next_waveform();
    assert_eq!(generator.waveform, Waveform::Sine);
}

#[test]
fn five_forward_steps_return_to_every_start() {
    let all = [
        Waveform::Sine,
        Waveform::Square,
        Waveform::Sawtooth,
        Waveform::Triangle,
        Waveform::Noise,
    ];
    for start in all {
        let mut generator = WaveformGenerator::new(start);
        for step in 1..=5 {
            generator.get_next_waveform();
            if step < 5 {
                assert_ne!(generator.waveform, start);
            }
        }
        assert_eq!(generator.waveform, start);
    }
}

#[test]
fn backward_step_undoes_forward_step() {
    let all = [
        Waveform::Sine,
        Waveform::Square,
        Waveform::Sawtooth,
        Waveform::Triangle,
        Waveform::Noise,
    ];
    for start in all {
        let mut generator = WaveformGenerator::new(start);
        generator.get_next_waveform();
        generator.get_previous_waveform();
        assert_eq!(generator.waveform, start);
        generator.get_previous_waveform();
        generator.get_next_waveform();
        assert_eq!(generator.waveform, start);
    }
}

#[test]
fn backward_cycle_from_sine_reaches_noise() {
    let mut generator = WaveformGenerator::new(Waveform::Sine);
    generator.get_previous_waveform();
    assert_eq!(generator.waveform, Waveform::Noise);
    generator.get_previous_waveform();
    assert_eq!(generator.waveform, Waveform::Triangle);
}

#[test]
fn set_waveform_assigns_directly() {
    let mut generator = WaveformGenerator::new(Waveform::Sine);
    generator.set_waveform(Waveform::Triangle);
    assert_eq!(generator.waveform, Waveform::Triangle);
}
