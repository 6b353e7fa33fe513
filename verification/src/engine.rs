use vstd::prelude::*;
use vstd::arithmetic::div_mod::{lemma_div_by_multiple, lemma_div_is_ordered, lemma_div_pos_is_pos, lemma_fundamental_div_mod_converse, lemma_multiply_divide_lt};
use crate::graph::{step, valid_ranking, Frame, Graph, DspNode};
use crate::node::Parametric;
use crate::osc::{SinOsc, SinOscParameters, UNIT};

verus! {

/// How setting the pitch parameter relates an oscillator's state before to
/// its state after: only the stored `Pitch` value changes.
pub open spec fn osc_pitch_set(pre: SinOsc, v: i64, post: SinOsc) -> bool {
    Parametric::<SinOscParameters>::param_set(pre, SinOscParameters::Pitch, v, post)
}

/// How one applied control value leaves node `i` of graph `g0` whose master
/// is `m`: every oscillator that is a direct input of the master takes the
/// value as its pitch; every other node is untouched.
pub open spec fn pitch_applied_node(g0: Graph, v: i64, m: int, i: int, post: DspNode) -> bool {
    if step(g0, m, i) && g0.nodes@[i] is Oscillator {
        post is Oscillator && osc_pitch_set(g0.nodes@[i].as_osc(), v, post.as_osc())
    } else {
        post == g0.nodes@[i]
    }
}

/// How one applied control value relates a whole graph before to after.
pub open spec fn pitch_applied(g0: Graph, v: i64, g1: Graph) -> bool {
    &&& g1.inputs == g0.inputs
    &&& g1.master == g0.master
    &&& g1.nodes@.len() == g0.nodes@.len()
    &&& match g0.master {
        None => g1.nodes == g0.nodes,
        Some(m) => forall|i: int|
            0 <= i < g0.nodes@.len() ==> pitch_applied_node(
                g0,
                v,
                m as int,
                i,
                #[trigger] g1.nodes@[i],
            ),
    }
}

/// The drain-then-apply-last contract: of all control values pending before a
/// block, exactly the most recent one is applied, and none at all when the
/// queue was empty.
pub open spec fn control_applied(g0: Graph, pending: Seq<i64>, g1: Graph) -> bool {
    if pending.len() == 0 {
        g1 == g0
    } else {
        pitch_applied(g0, pending.last(), g1)
    }
}

/// Applies the pending control values that the control thread queued since
/// the last block: intermediate values are coalesced away, and only the last
/// one reaches the oscillators feeding the master.
pub fn drain_apply(graph: &mut Graph, pending: &Vec<i64>)
    requires
        old(graph).wf(),
    ensures
        final(graph).wf(),
        control_applied(*old(graph), pending@, *final(graph)),
{
    let ghost g0 = *old(graph);
    if pending.len() == 0 {
        return ;
    }
    let v = pending[pending.len() - 1];
    let m = match graph.master {
        None => {
            return ;
        },
        Some(m) => m,
    };
    let n = graph.nodes.len();
    let deg = graph.inputs[m].len();
    let mut j: usize = 0;
    while j < deg
        invariant
            j <= deg,
            g0.wf_structure(),
            g0.master == Some(m),
            (m as int) < n,
            n == g0.nodes@.len(),
            graph.nodes@.len() == n,
            graph.inputs == g0.inputs,
            graph.master == g0.master,
            deg == g0.inputs@[m as int]@.len(),
            forall|i: int|
                0 <= i < n ==> pitch_applied_prefix(
                    g0,
                    v,
                    m as int,
                    j as int,
                    i,
                    #[trigger] graph.nodes@[i],
                ),
        decreases deg - j,
    {
        let idx = graph.inputs[m][j];
        proof {
            assert((idx as int) < n);
        }
        let ghost pre_nodes = graph.nodes@;
        match vstd::std_specs::vec::vec_index_mut(&mut graph.nodes, idx) {
            DspNode::Oscillator(o) => {
                o.set_parameter(SinOscParameters::Pitch, v);
            },
            DspNode::Synth => {},
        }
        proof {
            assert forall|i: int| 0 <= i < n implies pitch_applied_prefix(
                g0,
                v,
                m as int,
                j as int + 1,
                i,
                #[trigger] graph.nodes@[i],
            ) by {
                assert(pitch_applied_prefix(g0, v, m as int, j as int, i, pre_nodes[i]));
                if i != idx as int {
                    assert(graph.nodes@[i] == pre_nodes[i]);
                    assert(step_prefix(g0, m as int, j as int + 1, i) == step_prefix(
                        g0,
                        m as int,
                        j as int,
                        i,
                    ) || (g0.inputs@[m as int]@[j as int]) as int == i);
                } else {
                    assert(step_prefix(g0, m as int, j as int + 1, i));
                }
            };
        }
        j += 1;
    }
    proof {
        assert forall|i: int| 0 <= i < n implies pitch_applied_node(
            g0,
            v,
            m as int,
            i,
            #[trigger] graph.nodes@[i],
        ) by {
            assert(pitch_applied_prefix(g0, v, m as int, deg as int, i, graph.nodes@[i]));
            assert(step_prefix(g0, m as int, deg as int, i) == step(g0, m as int, i));
        };
        let rank0 = choose|rk: Seq<nat>| valid_ranking(g0, rk);
        assert forall|a: int, b: int| #[trigger] step(*graph, a, b) implies rank0[b]
            < rank0[a] by {
            let jj = choose|jj: int|
                0 <= jj < graph.inputs@[a]@.len() && (#[trigger] graph.inputs@[a]@[jj]) as int
                    == b;
            assert(0 <= jj < g0.inputs@[a]@.len() && (g0.inputs@[a]@[jj]) as int == b);
            assert(step(g0, a, b));
        };
        assert(valid_ranking(*graph, rank0));
    }
}

/// The device-native slot at interleaved position `idx`: frame `idx /
/// nchannels`, with even channels reading the left sample and odd channels
/// the right one, and silence past the end of the block.
pub open spec fn device_slot(block: Seq<Frame>, nchannels: int, idx: int) -> i64 {
    let f = idx / nchannels;
    let c = idx % nchannels;
    if 0 <= f < block.len() {
        if c % 2 == 0 {
            block[f].left
        } else {
            block[f].right
        }
    } else {
        0
    }
}

/// Lays a rendered block out as `nframes` interleaved device frames of
/// `nchannels` slots each, replicating the stereo pair across the channels
/// and padding missing frames with silence rather than reading out of bounds.
pub fn interleave_block(block: &Vec<Frame>, nchannels: usize, nframes: usize) -> (out: Vec<i64>)
    requires
        nchannels >= 1,
        nframes * nchannels <= usize::MAX,
    ensures
        out@.len() == nframes * nchannels,
        forall|idx: int|
            0 <= idx < out@.len() ==> out@[idx] == device_slot(block@, nchannels as int, idx),
{
    let mut out: Vec<i64> = Vec::new();
    let mut f: usize = 0;
    while f < nframes
        invariant
            f <= nframes,
            nchannels >= 1,
            nframes * nchannels <= usize::MAX,
            out@.len() == f * nchannels,
            forall|idx: int|
                0 <= idx < out@.len() ==> out@[idx] == device_slot(block@, nchannels as int, idx),
        decreases nframes - f,
    {
        let mut c: usize = 0;
        while c < nchannels
            invariant
                c <= nchannels,
                f < nframes,
                nchannels >= 1,
                nframes * nchannels <= usize::MAX,
                out@.len() == f * nchannels + c,
                forall|idx: int|
                    0 <= idx < out@.len() ==> out@[idx] == device_slot(
                        block@,
                        nchannels as int,
                        idx,
                    ),
            decreases nchannels - c,
        {
            proof {
                assert(f * nchannels + c + 1 <= nframes * nchannels) by (nonlinear_arith)
                    requires
                        f < nframes,
                        c < nchannels,
                ;
            }
            let v: i64 = if f < block.len() {
                if c % 2 == 0 {
                    block[f].left
                } else {
                    block[f].right
                }
            } else {
                0
            };
            out.push(v);
            proof {
                let idx = f * nchannels + c;
                lemma_fundamental_div_mod_converse(
                    idx as int,
                    nchannels as int,
                    f as int,
                    c as int,
                );
            }
            c += 1;
        }
        proof {
            assert((f + 1) * nchannels == f * nchannels + nchannels) by (nonlinear_arith);
        }
        f += 1;
    }
    out
}

/// The 16-bit signed representation of a sample: clamped to full scale, then
/// scaled so that full scale is 32767; the sign is applied to the scaled
/// magnitude.
pub open spec fn sample_to_i16_spec(s: int) -> int {
    let c = if s > UNIT {
        UNIT as int
    } else if s < -UNIT {
        -(UNIT as int)
    } else {
        s
    };
    let mag = (if c >= 0 {
        c
    } else {
        -c
    }) * 32767 / (UNIT as int);
    if c >= 0 {
        mag
    } else {
        -mag
    }
}

/// Converts one sample to the device's signed 16-bit representation.
pub fn sample_to_i16(s: i64) -> (r: i16)
    ensures
        r == sample_to_i16_spec(s as int),
        -32767 <= r <= 32767,
{
    let c: i64 = if s > UNIT {
        UNIT
    } else if s < -UNIT {
        -UNIT
    } else {
        s
    };
    let mag_in: u64 = if c >= 0 {
        c as u64
    } else {
        (-c) as u64
    };
    proof {
        lemma_div_is_ordered(mag_in * 32767, (UNIT as int) * 32767, UNIT as int);
        lemma_div_is_ordered(0, mag_in * 32767, UNIT as int);
        assert(((UNIT as int) * 32767) / (UNIT as int) == 32767) by {
            lemma_div_by_multiple(32767, UNIT as int);
        };
    }
    let mag: u64 = mag_in * 32767 / (UNIT as u64);
    if c >= 0 {
        mag as i16
    } else {
        -(mag as i16)
    }
}

/// Converts one sample to the device's unsigned 16-bit representation, the
/// signed representation offset by half the unsigned range.
pub fn sample_to_u16(s: i64) -> (r: u16)
    ensures
        r as int == sample_to_i16_spec(s as int) + 32768,
{
    let v = sample_to_i16(s);
    ((v as i32) + 32768) as u16
}

/// Maps a normalized control value (`0..=UNIT`, that is 0.0 through 1.0) to
/// a pitch in sample units per second, sweeping one octave of the control
/// range from 1000 Hz up to 2000 Hz.
pub fn control_to_pitch(c: i64) -> (r: i64)
    requires
        0 <= c <= UNIT,
    ensures
        r == 1000 * UNIT + c * 1000,
{
    1000 * UNIT + c * 1000
}

/// One whole render-callback request, as the device driver sees it: drain
/// the pending control values (coalescing them to the last one), render one
/// block at the device's sample rate, and lay the frames out over the
/// device's channel slots. The ghost half of the result is the graph as it
/// stood between the control application and the render, so the contract can
/// name both halves of the work exactly.
pub fn on_device_request(
    graph: &mut Graph,
    pending: &Vec<i64>,
    nframes: usize,
    nchannels: usize,
    sample_rate: u32,
) -> (r: (Vec<i64>, Ghost<Graph>))
    requires
        old(graph).wf(),
        sample_rate > 0,
        nchannels >= 1,
        nframes * nchannels <= usize::MAX,
    ensures
        final(graph).wf(),
        control_applied(*old(graph), pending@, r.1@),
        r.1@.wf(),
        final(graph).inputs == r.1@.inputs,
        final(graph).master == r.1@.master,
        final(graph).nodes@.len() == r.1@.nodes@.len(),
        r.1@.master is None ==> *final(graph) == r.1@,
        (match r.1@.master {
            Some(m) => forall|i: int|
                0 <= i < r.1@.nodes@.len() ==> crate::graph::node_after_render(
                    r.1@,
                    sample_rate as int,
                    nframes as nat,
                    m as int,
                    i,
                    #[trigger] final(graph).nodes@[i],
                ),
            None => true,
        }),
        r.0@.len() == nframes * nchannels,
        forall|idx: int|
            0 <= idx < r.0@.len() ==> (#[trigger] r.0@[idx]) as int == (match r.1@.master {
                Some(m) => crate::graph::node_sample(
                    r.1@,
                    sample_rate as int,
                    m as int,
                    (idx / (nchannels as int)) as nat,
                    r.1@.nodes@.len() as nat,
                ),
                None => 0,
            }),
{
    drain_apply(graph, pending);
    let ghost mid = *graph;
    let mut buffer: Vec<Frame> = Vec::new();
    let mut k: usize = 0;
    while k < nframes
        invariant
            k <= nframes,
            buffer@.len() == k,
        decreases nframes - k,
    {
        buffer.push(Frame { left: 0, right: 0 });
        k += 1;
    }
    graph.render(&mut buffer, sample_rate);
    let ghost frames = buffer@;
    let out = interleave_block(&buffer, nchannels, nframes);
    proof {
        assert forall|idx: int| 0 <= idx < out@.len() implies (#[trigger] out@[idx]) as int == (
        match mid.master {
            Some(m) => crate::graph::node_sample(
                mid,
                sample_rate as int,
                m as int,
                (idx / (nchannels as int)) as nat,
                mid.nodes@.len() as nat,
            ),
            None => 0,
        }) by {
            lemma_div_pos_is_pos(idx, nchannels as int);
            assert(idx < (nframes as int) * (nchannels as int));
            assert((nframes as int) * (nchannels as int) == (nchannels as int) * (
            nframes as int)) by (nonlinear_arith);
            lemma_multiply_divide_lt(idx, nchannels as int, nframes as int);
            assert(out@[idx] == device_slot(frames, nchannels as int, idx));
            let f = idx / (nchannels as int);
            assert(0 <= f < nframes);
            assert(frames[f].right == frames[f].left);
        };
    }
    (out, Ghost(mid))
}

/// A direct input among the first `j` entries of `m`'s input list.
pub open spec fn step_prefix(g0: Graph, m: int, j: int, i: int) -> bool {
    exists|jj: int| 0 <= jj < j && jj < g0.inputs@[m]@.len() && (#[trigger] g0.inputs@[m]@[jj]) as int == i
}

/// `pitch_applied_node`, restricted to the first `j` entries of the master's
/// input list: the state the apply loop has reached after `j` entries.
pub open spec fn pitch_applied_prefix(g0: Graph, v: i64, m: int, j: int, i: int, post: DspNode) -> bool {
    if step_prefix(g0, m, j, i) && g0.nodes@[i] is Oscillator {
        post is Oscillator && osc_pitch_set(g0.nodes@[i].as_osc(), v, post.as_osc())
    } else {
        post == g0.nodes@[i]
    }
}

} // verus!

