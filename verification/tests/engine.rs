use synthcore::engine::{
    control_to_pitch, drain_apply, interleave_block, on_device_request, sample_to_i16,
    sample_to_u16,
};
use synthcore::graph::{DspNode, Frame, Graph};
use synthcore::node::Parametric;
use synthcore::osc::{SinOsc, SinOscParameters, UNIT};

const RATE: u32 = 44_100;

fn demo_graph() -> (Graph, usize, usize) {
    let mut graph = Graph::new();
    let synth = graph.add_node(DspNode::Synth);
    let mut osc = SinOsc::new();
    osc.set_parameter(SinOscParameters::Pitch, 440 * UNIT);
    let voice = graph.add_node(DspNode::Oscillator(osc));
    graph.add_input(voice, synth).unwrap();
    graph.set_master(Some(synth)).unwrap();
    (graph, synth, voice)
}

fn pitch_of(graph: &Graph, id: usize) -> i64 {
    match &graph.nodes[id] {
        DspNode::Oscillator(o) => o.parameters.get(SinOscParameters::Pitch),
        DspNode::Synth => panic!("expected an oscillator"),
    }
}

#[test]
fn drain_applies_only_the_last_value() {
    let (mut graph, _synth, voice) = demo_graph();
    let pending = vec![500 * UNIT, 750 * UNIT, 900 * UNIT];
    drain_apply(&mut graph, &pending);
    assert_eq!(pitch_of(&graph, voice), 900 * UNIT);
}

#[test]
fn drained_block_sounds_like_the_last_value_alone() {
    let (mut coalesced, _s1, _v1) = demo_graph();
    let pending = vec![123 * UNIT, 999 * UNIT, 660 * UNIT];
    drain_apply(&mut coalesced, &pending);
    let mut buffer_a = vec![Frame { left: 0, right: 0 }; 32];
    coalesced.render(&mut buffer_a, RATE);

    let (mut direct, _s2, v2) = demo_graph();
    let only_last = vec![660 * UNIT];
    drain_apply(&mut direct, &only_last);
    assert_eq!(pitch_of(&direct, v2), 660 * UNIT);
    let mut buffer_b = vec![Frame { left: 0, right: 0 }; 32];
    direct.render(&mut buffer_b, RATE);

    assert_eq!(buffer_a, buffer_b);
}

#[test]
fn empty_drain_changes_nothing() {
    let (mut graph, _synth, voice) = demo_graph();
    let pending: Vec<i64> = Vec::new();
    drain_apply(&mut graph, &pending);
    assert_eq!(pitch_of(&graph, voice), 440 * UNIT);
}

#[test]
fn drain_reaches_every_master_input() {
    let mut graph = Graph::new();
    let synth = graph.add_node(DspNode::Synth);
    let a = graph.add_node(DspNode::Oscillator(SinOsc::new()));
    let b = graph.add_node(DspNode::Oscillator(SinOsc::new()));
    graph.add_input(a, synth).unwrap();
    graph.add_input(b, synth).unwrap();
    graph.set_master(Some(synth)).unwrap();
    drain_apply(&mut graph, &vec![1234]);
    assert_eq!(pitch_of(&graph, a), 1234);
    assert_eq!(pitch_of(&graph, b), 1234);
}

#[test]
fn interleave_stereo_pads_missing_frames_with_silence() {
    let block = vec![Frame { left: 1, right: 2 }, Frame { left: 3, right: 4 }];
    let out = interleave_block(&block, 2, 3);
    assert_eq!(out, vec![1, 2, 3, 4, 0, 0]);
}

#[test]
fn interleave_mono_selects_the_left_channel() {
    let block = vec![Frame { left: 1, right: 2 }, Frame { left: 3, right: 4 }];
    let out = interleave_block(&block, 1, 3);
    assert_eq!(out, vec![1, 3, 0]);
}

#[test]
fn interleave_replicates_the_pair_over_extra_channels() {
    let block = vec![Frame { left: 1, right: 2 }];
    let out = interleave_block(&block, 4, 1);
    assert_eq!(out, vec![1, 2, 1, 2]);
}

#[test]
fn i16_conversion_is_exact_at_the_landmarks() {
    assert_eq!(sample_to_i16(0), 0);
    assert_eq!(sample_to_i16(UNIT), 32_767);
    assert_eq!(sample_to_i16(-UNIT), -32_767);
    assert_eq!(sample_to_i16(UNIT / 2), 16_383);
    assert_eq!(sample_to_i16(-UNIT / 2), -16_383);
}

#[test]
fn i16_conversion_clamps_out_of_range_samples() {
    assert_eq!(sample_to_i16(3 * UNIT), 32_767);
    assert_eq!(sample_to_i16(-3 * UNIT), -32_767);
}

#[test]
fn u16_conversion_offsets_the_signed_value() {
    assert_eq!(sample_to_u16(0), 32_768);
    assert_eq!(sample_to_u16(UNIT), 65_535);
    assert_eq!(sample_to_u16(-UNIT), 1);
}

#[test]
fn control_mapping_spans_the_advertised_octave() {
    assert_eq!(control_to_pitch(0), 1000 * UNIT);
    assert_eq!(control_to_pitch(UNIT), 2000 * UNIT);
    assert_eq!(control_to_pitch(UNIT / 2), 1500 * UNIT);
}

#[test]
fn device_request_matches_the_composed_pipeline() {
    let (mut composed, _s1, _v1) = demo_graph();
    let pending = vec![500 * UNIT, 880 * UNIT];
    drain_apply(&mut composed, &pending);
    let mut buffer = vec![Frame { left: 0, right: 0 }; 16];
    composed.render(&mut buffer, RATE);
    let expected = interleave_block(&buffer, 2, 16);

    let (mut direct, _s2, _v2) = demo_graph();
    let (slots, _mid) = on_device_request(&mut direct, &pending, 16, 2, RATE);
    assert_eq!(slots, expected);
}

#[test]
fn device_request_without_master_is_silence() {
    let mut graph = Graph::new();
    graph.add_node(DspNode::Oscillator(SinOsc::new()));
    let pending = vec![440 * UNIT];
    let (slots, _mid) = on_device_request(&mut graph, &pending, 8, 2, RATE);
    assert_eq!(slots, vec![0; 16]);
}
