use synthcore::graph::{DspNode, Frame, Graph, GraphError};
use synthcore::node::{Parametric, SignalGenerator, SignalProcessor};
use synthcore::osc::{SinOsc, SinOscParameters, UNIT};

const RATE: u32 = 44_100;

fn osc_node(pitch: i64) -> DspNode {
    let mut osc = SinOsc::new();
    osc.set_parameter(SinOscParameters::Pitch, pitch);
    DspNode::Oscillator(osc)
}

fn frames(len: usize) -> Vec<Frame> {
    let mut buffer = Vec::new();
    for _ in 0..len {
        buffer.push(Frame { left: 7, right: 7 });
    }
    buffer
}

#[test]
fn add_node_hands_out_ids_in_order() {
    let mut graph = Graph::new();
    assert_eq!(graph.add_node(DspNode::Synth), 0);
    assert_eq!(graph.add_node(osc_node(440 * UNIT)), 1);
    assert_eq!(graph.add_node(osc_node(587 * UNIT)), 2);
}

#[test]
fn add_input_rejects_unknown_ids() {
    let mut graph = Graph::new();
    let synth = graph.add_node(DspNode::Synth);
    assert_eq!(graph.add_input(5, synth), Err(GraphError::UnknownNode));
    assert_eq!(graph.add_input(synth, 5), Err(GraphError::UnknownNode));
}

#[test]
fn add_input_rejects_self_feeding() {
    let mut graph = Graph::new();
    let synth = graph.add_node(DspNode::Synth);
    assert_eq!(graph.add_input(synth, synth), Err(GraphError::WouldCycle));
}

#[test]
fn add_input_rejects_cycles() {
    let mut graph = Graph::new();
    let a = graph.add_node(DspNode::Synth);
    let b = graph.add_node(DspNode::Synth);
    let c = graph.add_node(DspNode::Synth);
    assert_eq!(graph.add_input(b, a), Ok(()));
    assert_eq!(graph.add_input(c, b), Ok(()));
    assert_eq!(graph.add_input(a, c), Err(GraphError::WouldCycle));
}

#[test]
fn add_input_accepts_a_diamond() {
    let mut graph = Graph::new();
    let top = graph.add_node(DspNode::Synth);
    let mid1 = graph.add_node(DspNode::Synth);
    let mid2 = graph.add_node(DspNode::Synth);
    let leaf = graph.add_node(osc_node(440 * UNIT));
    assert_eq!(graph.add_input(mid1, top), Ok(()));
    assert_eq!(graph.add_input(mid2, top), Ok(()));
    assert_eq!(graph.add_input(leaf, mid1), Ok(()));
    assert_eq!(graph.add_input(leaf, mid2), Ok(()));
}

#[test]
fn set_master_rejects_unknown_ids() {
    let mut graph = Graph::new();
    assert_eq!(graph.set_master(Some(0)), Err(GraphError::UnknownNode));
    assert_eq!(graph.set_master(None), Ok(()));
}

#[test]
fn render_without_master_is_silence() {
    let mut graph = Graph::new();
    graph.add_node(osc_node(440 * UNIT));
    let mut buffer = frames(64);
    graph.render(&mut buffer, RATE);
    assert_eq!(buffer.len(), 64);
    for f in &buffer {
        assert_eq!(f.left, 0);
        assert_eq!(f.right, 0);
    }
}

#[test]
fn render_with_orphan_master_is_silence() {
    let mut graph = Graph::new();
    let synth = graph.add_node(DspNode::Synth);
    graph.add_node(osc_node(440 * UNIT));
    graph.set_master(Some(synth)).unwrap();
    let mut buffer = frames(64);
    graph.render(&mut buffer, RATE);
    for f in &buffer {
        assert_eq!(f.left, 0);
        assert_eq!(f.right, 0);
    }
}

#[test]
fn render_mixes_two_oscillators_additively() {
    let mut graph = Graph::new();
    let synth = graph.add_node(DspNode::Synth);
    let a = graph.add_node(osc_node(440 * UNIT));
    let b = graph.add_node(osc_node(587 * UNIT));
    graph.add_input(a, synth).unwrap();
    graph.add_input(b, synth).unwrap();
    graph.set_master(Some(synth)).unwrap();

    let mut buffer = frames(32);
    graph.render(&mut buffer, RATE);

    let mut ref_a = SinOsc::new();
    let mut ref_b = SinOsc::new();
    ref_a.set_parameter(SinOscParameters::Pitch, 440 * UNIT);
    ref_b.set_parameter(SinOscParameters::Pitch, 587 * UNIT);
    for f in &buffer {
        ref_a.process(RATE);
        ref_b.process(RATE);
        let want = ref_a.output() + ref_b.output();
        assert_eq!(f.left, want);
        assert_eq!(f.right, want);
    }
}

#[test]
fn render_advances_only_reachable_oscillators() {
    let mut graph = Graph::new();
    let synth = graph.add_node(DspNode::Synth);
    let wired = graph.add_node(osc_node(440 * UNIT));
    let orphan = graph.add_node(osc_node(440 * UNIT));
    graph.add_input(wired, synth).unwrap();
    graph.set_master(Some(synth)).unwrap();
    let mut buffer = frames(16);
    graph.render(&mut buffer, RATE);
    match &graph.nodes[wired] {
        DspNode::Oscillator(o) => assert_ne!(o.phase, 0),
        DspNode::Synth => panic!("expected an oscillator"),
    }
    match &graph.nodes[orphan] {
        DspNode::Oscillator(o) => assert_eq!(o.phase, 0),
        DspNode::Synth => panic!("expected an oscillator"),
    }
}

#[test]
fn nested_masters_mix_transitively() {
    let mut graph = Graph::new();
    let top = graph.add_node(DspNode::Synth);
    let inner = graph.add_node(DspNode::Synth);
    let a = graph.add_node(osc_node(440 * UNIT));
    graph.add_input(inner, top).unwrap();
    graph.add_input(a, inner).unwrap();
    graph.set_master(Some(top)).unwrap();
    let mut buffer = frames(8);
    graph.render(&mut buffer, RATE);

    let mut reference = SinOsc::new();
    reference.set_parameter(SinOscParameters::Pitch, 440 * UNIT);
    for f in &buffer {
        reference.process(RATE);
        assert_eq!(f.left, reference.output());
    }
}

#[test]
fn audio_requested_overwrites_frames_for_oscillators() {
    let mut node = osc_node(440 * UNIT);
    let mut buffer = frames(8);
    node.audio_requested(&mut buffer, RATE);
    let mut reference = SinOsc::new();
    reference.set_parameter(SinOscParameters::Pitch, 440 * UNIT);
    for f in &buffer {
        reference.process(RATE);
        assert_eq!(f.left, reference.output());
        assert_eq!(f.right, f.left);
    }
}

#[test]
fn audio_requested_leaves_frames_alone_for_the_synth() {
    let mut node = DspNode::Synth;
    let mut buffer = frames(8);
    node.audio_requested(&mut buffer, RATE);
    for f in &buffer {
        assert_eq!(f.left, 7);
        assert_eq!(f.right, 7);
    }
}
