use synthcore::node::{Parametric, SignalGenerator, SignalProcessor, SignalReceiver};
use synthcore::osc::{
    phase_increment_exec, sine_wave, ParamStore, SinOsc, SinOscParameters, AMPLITUDE, PHASE_HALF,
    PHASE_ONE, UNIT,
};

const RATE: u32 = 44_100;

#[test]
fn sine_wave_zero_is_silent() {
    assert_eq!(sine_wave(0), 0);
}

#[test]
fn sine_wave_half_cycle_is_silent() {
    assert_eq!(sine_wave(-PHASE_HALF), 0);
}

#[test]
fn sine_wave_peaks_at_quarter_cycle() {
    assert_eq!(sine_wave(PHASE_HALF / 2), AMPLITUDE);
    assert_eq!(sine_wave(-PHASE_HALF / 2), -AMPLITUDE);
}

#[test]
fn sine_wave_eighth_cycle_exact() {
    assert_eq!(sine_wave(PHASE_HALF / 4), 75_000);
    assert_eq!(sine_wave(-PHASE_HALF / 4), -75_000);
}

#[test]
fn sine_wave_is_odd_and_bounded() {
    let mut p: i64 = -PHASE_HALF;
    while p < PHASE_HALF {
        let s = sine_wave(p);
        assert!(-AMPLITUDE <= s && s <= AMPLITUDE);
        if p > -PHASE_HALF {
            assert_eq!(sine_wave(-p), -s);
        }
        p += 12_345_678;
    }
}

#[test]
fn increment_for_a440_exact() {
    assert_eq!(phase_increment_exec(440 * UNIT, RATE), 42_852_281);
}

#[test]
fn increment_for_zero_frequency_is_zero() {
    assert_eq!(phase_increment_exec(0, RATE), 0);
}

#[test]
fn increment_for_negative_frequency_walks_backwards() {
    assert_eq!(phase_increment_exec(-440 * UNIT, RATE), 4_252_115_015);
    let f = phase_increment_exec(440 * UNIT, RATE);
    let b = phase_increment_exec(-440 * UNIT, RATE);
    assert_eq!((f + b) % PHASE_ONE, 0);
}

#[test]
fn parameter_defaults_to_zero() {
    let mut osc = SinOsc::new();
    assert_eq!(osc.parameter(SinOscParameters::Pitch), 0);
}

#[test]
fn parameter_store_defaults_to_zero() {
    let store = ParamStore::new();
    assert_eq!(store.get(SinOscParameters::Pitch), 0);
}

#[test]
fn last_parameter_write_wins() {
    let mut osc = SinOsc::new();
    osc.set_parameter(SinOscParameters::Pitch, 440 * UNIT);
    osc.set_parameter(SinOscParameters::Pitch, 880 * UNIT);
    assert_eq!(osc.parameter(SinOscParameters::Pitch), 880 * UNIT);
}

#[test]
fn zero_frequency_stays_exactly_silent() {
    let mut osc = SinOsc::new();
    for _ in 0..1000 {
        osc.process(RATE);
        assert_eq!(osc.output(), 0);
        assert_eq!(osc.phase, 0);
    }
}

#[test]
fn one_step_at_a440_exact() {
    let mut osc = SinOsc::new();
    osc.set_parameter(SinOscParameters::Pitch, 440 * UNIT);
    osc.process(RATE);
    assert_eq!(osc.phase, 42_852_281);
    assert_eq!(osc.output(), 7_812);
    osc.process(RATE);
    assert_eq!(osc.phase, 85_704_562);
    assert_eq!(osc.output(), 15_317);
}

#[test]
fn tick_matches_process() {
    let mut a = SinOsc::new();
    let mut b = SinOsc::new();
    a.set_parameter(SinOscParameters::Pitch, 587 * UNIT);
    b.set_parameter(SinOscParameters::Pitch, 587 * UNIT);
    for _ in 0..32 {
        a.process(RATE);
        b.tick(RATE);
        assert_eq!(a.phase, b.phase);
        assert_eq!(a.output, b.output);
    }
}

#[test]
fn phase_stays_wrapped_even_past_nyquist() {
    let mut osc = SinOsc::new();
    osc.set_parameter(SinOscParameters::Pitch, 30_000 * UNIT);
    let expected = [-1_373_220_837i64, 1_548_525_622, 175_304_785];
    for want in expected {
        osc.process(RATE);
        assert_eq!(osc.phase, want);
    }
    for _ in 0..1000 {
        osc.process(RATE);
        assert!(-PHASE_HALF <= osc.phase && osc.phase < PHASE_HALF);
    }
}

#[test]
fn output_never_exceeds_amplitude() {
    let mut osc = SinOsc::new();
    osc.set_parameter(SinOscParameters::Pitch, 997 * UNIT);
    for _ in 0..2000 {
        osc.process(RATE);
        let s = osc.output();
        assert!(-AMPLITUDE <= s && s <= AMPLITUDE);
    }
}

#[test]
fn set_input_stores_the_value() {
    let mut osc = SinOsc::new();
    osc.set_input(123);
    assert_eq!(osc.input, 123);
    assert_eq!(osc.phase, 0);
    assert_eq!(osc.output, 0);
}

#[test]
fn render_block_matches_stepwise_processing() {
    let mut blockwise = SinOsc::new();
    let mut stepwise = SinOsc::new();
    blockwise.set_parameter(SinOscParameters::Pitch, 698 * UNIT);
    stepwise.set_parameter(SinOscParameters::Pitch, 698 * UNIT);
    let samples = blockwise.render_block(64, RATE);
    assert_eq!(samples.len(), 64);
    for s in &samples {
        stepwise.process(RATE);
        assert_eq!(*s, stepwise.output());
    }
    assert_eq!(blockwise.phase, stepwise.phase);
}

#[test]
fn zero_frequency_holds_a_nonzero_phase_steady() {
    let mut osc = SinOsc::new();
    osc.phase = PHASE_HALF / 2;
    for _ in 0..100 {
        osc.process(RATE);
        assert_eq!(osc.phase, PHASE_HALF / 2);
        assert_eq!(osc.output(), AMPLITUDE);
    }
}
