use vstd::prelude::*;
use crate::osc::{phase_at, sample_at, SinOsc};

verus! {

/// A handle identifying a node within a `Graph`; stable for the node's
/// lifetime.
pub type NodeId = usize;

/// The errors reported while building a graph; a graph is never left in a
/// partially invalid state.
#[derive(Clone, Copy, PartialEq, Eq, Structural, Debug)]
pub enum GraphError {
    /// An operation referenced a node id that is not in the graph.
    UnknownNode,
    /// Adding the edge would have made a node its own direct or transitive
    /// input.
    WouldCycle,
}

/// A signal node: either the master mixer (the synth), which has no state
/// beyond its input edges, or a sine oscillator.
pub enum DspNode {
    /// The mixing node: its output is the additive mix of its inputs.
    Synth,
    /// A generator node with its own phase, output and parameters.
    Oscillator(SinOsc),
}

impl DspNode {
    /// Well-formed: an oscillator's own invariant holds; the synth carries no
    /// state.
    pub open spec fn wf(&self) -> bool {
        match self {
            DspNode::Oscillator(o) => o.wf(),
            DspNode::Synth => true,
        }
    }
}

/// An owned collection of signal nodes, a directed input relation (which
/// nodes feed which), and an optional designated master node.
pub struct Graph {
    pub nodes: Vec<DspNode>,
    pub inputs: Vec<Vec<NodeId>>,
    pub master: Option<NodeId>,
}

/// `b` is a direct input of `a`: `a`'s summation pulls from `b`.
pub open spec fn step(g: Graph, a: int, b: int) -> bool {
    &&& 0 <= a < g.inputs@.len()
    &&& exists|j: int|
        0 <= j < g.inputs@[a]@.len() && (#[trigger] g.inputs@[a]@[j]) as int == b
}

/// `s` walks the graph from each node to one of its direct inputs.
pub open spec fn is_path(g: Graph, s: Seq<int>) -> bool {
    s.len() >= 1 && forall|i: int| 0 <= i < s.len() - 1 ==> step(g, #[trigger] s[i], s[i + 1])
}

/// `b` is `a` itself or a transitive input of `a`.
pub open spec fn reaches(g: Graph, a: int, b: int) -> bool {
    exists|s: Seq<int>| is_path(g, s) && s.first() == a && s.last() == b
}

/// A ranking that witnesses that the input relation never loops: walking from
/// a node to one of its inputs strictly descends.
pub open spec fn valid_ranking(g: Graph, rank: Seq<nat>) -> bool {
    &&& rank.len() == g.nodes@.len()
    &&& forall|a: int, b: int| #[trigger] step(g, a, b) ==> rank[b] < rank[a]
}

impl Graph {
    /// The structural part of well-formedness: inputs aligned with nodes, all
    /// edges and the master in range, every node well-formed.
    pub open spec fn wf_structure(&self) -> bool {
        &&& self.inputs@.len() == self.nodes@.len()
        &&& forall|a: int, j: int|
            0 <= a < self.inputs@.len() && 0 <= j < self.inputs@[a]@.len()
                ==> (#[trigger] self.inputs@[a]@[j]) < self.nodes@.len()
        &&& match self.master {
            Some(m) => m < self.nodes@.len(),
            None => true,
        }
        &&& forall|i: int| 0 <= i < self.nodes@.len() ==> (#[trigger] self.nodes@[i]).wf()
    }

    /// Well-formed: structurally sound, and no node is its own direct or
    /// transitive input, witnessed by a ranking of the nodes.
    pub open spec fn wf(&self) -> bool {
        &&& self.wf_structure()
        &&& exists|rank: Seq<nat>| valid_ranking(*self, rank)
    }
}

/// Every node reaches itself, by the one-node path.
pub proof fn lemma_reaches_refl(g: Graph, a: int)
    ensures
        reaches(g, a, a),
{
    let s = seq![a];
    assert(is_path(g, s) && s.first() == a && s.last() == a);
}

/// Reaching a node and stepping to one of its inputs reaches that input.
pub proof fn lemma_reaches_extend(g: Graph, a: int, b: int, c: int)
    requires
        reaches(g, a, b),
        step(g, b, c),
    ensures
        reaches(g, a, c),
{
    let s = choose|s: Seq<int>| is_path(g, s) && s.first() == a && s.last() == b;
    let t = s.push(c);
    assert forall|i: int| 0 <= i < t.len() - 1 implies step(g, #[trigger] t[i], t[i + 1]) by {
        if i < s.len() - 1 {
            assert(t[i] == s[i] && t[i + 1] == s[i + 1]);
        } else {
            assert(t[i] == s.last() && t[i + 1] == c);
        }
    };
    assert(is_path(g, t) && t.first() == a && t.last() == c);
}

/// A set of nodes that contains `a` and is closed under taking direct inputs
/// contains every node that `a` reaches.
proof fn lemma_closed_set_reaches(g: Graph, vis: Seq<bool>, s: Seq<int>)
    requires
        vis.len() == g.nodes@.len(),
        g.inputs@.len() == g.nodes@.len(),
        forall|a: int, j: int|
            0 <= a < g.inputs@.len() && 0 <= j < g.inputs@[a]@.len()
                ==> (#[trigger] g.inputs@[a]@[j]) < g.nodes@.len(),
        is_path(g, s),
        0 <= s.first() < vis.len(),
        vis[s.first()],
        forall|x: int, y: int|
            0 <= x < vis.len() && vis[x] && #[trigger] step(g, x, y) ==> 0 <= y < vis.len()
                && vis[y],
    ensures
        0 <= s.last() < vis.len(),
        vis[s.last()],
    decreases s.len(),
{
    if s.len() > 1 {
        assert(step(g, s[0], s[1]));
        let t = s.skip(1);
        assert(forall|i: int|
            0 <= i < t.len() - 1 ==> step(g, #[trigger] t[i], t[i + 1])) by {
            assert(forall|i: int| 0 <= i < t.len() ==> t[i] == s[i + 1]);
        };
        assert(t.first() == s[1] && t.last() == s.last());
        lemma_closed_set_reaches(g, vis, t);
    }
}

/// How many slots of `s` are still false.
pub closed spec fn count_false(s: Seq<bool>) -> nat
    decreases s.len(),
{
    if s.len() == 0 {
        0
    } else {
        (if s[0] {
            0nat
        } else {
            1nat
        }) + count_false(s.skip(1))
    }
}

/// Marking a false slot true shrinks the count of false slots by one.
proof fn lemma_count_false_update(s: Seq<bool>, i: int)
    requires
        0 <= i < s.len(),
        !s[i],
    ensures
        count_false(s.update(i, true)) + 1 == count_false(s),
    decreases s.len(),
{
    let t = s.update(i, true);
    if i == 0 {
        assert(t.skip(1) =~= s.skip(1));
    } else {
        assert(t[0] == s[0]);
        assert(t.skip(1) =~= s.skip(1).update(i - 1, true));
        lemma_count_false_update(s.skip(1), i - 1);
    }
}

impl Graph {
    /// Marks every node reachable from `from` along input edges: on return,
    /// slot `i` holds exactly when `from` reaches node `i`.
    fn reachable_from(&self, from: NodeId) -> (vis: Vec<bool>)
        requires
            self.wf_structure(),
            (from as int) < self.nodes@.len(),
        ensures
            vis@.len() == self.nodes@.len(),
            forall|i: int| 0 <= i < vis@.len() ==> (vis@[i] == reaches(*self, from as int, i)),
    {
        let n = self.nodes.len();
        let mut vis: Vec<bool> = vec![false; n];
        let mut stack: Vec<NodeId> = Vec::new();
        *vstd::std_specs::vec::vec_index_mut(&mut vis, from) = true;
        stack.push(from);
        proof {
            lemma_reaches_refl(*self, from as int);
            assert(stack@.len() == 1 && stack@[0] == from);
            assert(stack@.contains(from));
            assert(forall|i: int| 0 <= i < n && i != from as int ==> !vis@[i]);
        }
        while stack.len() > 0
            invariant
                n == self.nodes@.len(),
                vis@.len() == n,
                self.wf_structure(),
                (from as int) < n,
                vis@[from as int],
                forall|t: int|
                    0 <= t < stack@.len() ==> (#[trigger] stack@[t]) < n && vis@[stack@[t] as int],
                forall|i: int| 0 <= i < n && #[trigger] vis@[i] ==> reaches(*self, from as int, i),
                forall|x: int, y: int|
                    0 <= x < n && vis@[x] && !stack@.contains(x as usize) && #[trigger] step(
                        *self,
                        x,
                        y,
                    ) ==> 0 <= y < n && vis@[y],
            decreases count_false(vis@) + stack@.len(),
        {
            let ghost stack_pre = stack@;
            let popped = stack.pop();
            let v = match popped {
                Some(v) => v,
                None => {
                    proof {
                        assert(false);
                    }
                    0
                },
            };
            let ghost vis0 = vis@;
            let ghost slen0 = stack@.len();
            proof {
                assert(stack_pre.len() > 0 && stack_pre.last() == v && stack@
                    == stack_pre.drop_last());
                assert forall|x: usize|
                    !stack@.contains(x) && x != v implies !stack_pre.contains(x) by {
                    if stack_pre.contains(x) {
                        let t = choose|t: int|
                            0 <= t < stack_pre.len() && stack_pre[t] == x;
                        if t < stack_pre.len() - 1 {
                            assert(stack@[t] == x);
                        }
                    }
                };
            }
            let mut j: usize = 0;
            let deg = self.inputs[v].len();
            while j < deg
                invariant
                    n == self.nodes@.len(),
                    vis@.len() == n,
                    self.wf_structure(),
                    (from as int) < n,
                    (v as int) < n,
                    deg == self.inputs@[v as int]@.len(),
                    j <= deg,
                    vis@[from as int],
                    vis@[v as int],
                    reaches(*self, from as int, v as int),
                    forall|t: int|
                        0 <= t < stack@.len() ==> (#[trigger] stack@[t]) < n
                            && vis@[stack@[t] as int],
                    forall|i: int|
                        0 <= i < n && #[trigger] vis@[i] ==> reaches(
                            *self,
                            from as int,
                            i,
                        ),
                    forall|x: int, y: int|
                        0 <= x < n && vis@[x] && x != v as int && !stack@.contains(
                            x as usize,
                        ) && #[trigger] step(*self, x, y) ==> 0 <= y < n && vis@[y],
                    forall|jj: int|
                        0 <= jj < j ==> vis@[(#[trigger] self.inputs@[v as int]@[jj]) as int],
                    forall|i: int| 0 <= i < n && #[trigger] vis0[i] ==> vis@[i],
                    count_false(vis@) + stack@.len() == count_false(vis0) + slen0,
                decreases deg - j,
            {
                let w = self.inputs[v][j];
                if !vis[w] {
                    let ghost visbefore = vis@;
                    let ghost stk0 = stack@;
                    *vstd::std_specs::vec::vec_index_mut(&mut vis, w) = true;
                    stack.push(w);
                    proof {
                        lemma_count_false_update(visbefore, w as int);
                        assert(step(*self, v as int, w as int));
                        lemma_reaches_extend(*self, from as int, v as int, w as int);
                        assert(forall|i: int|
                            0 <= i < n && #[trigger] visbefore[i] ==> vis@[i]);
                        assert(stack@ == stk0.push(w));
                        assert forall|x: usize| !(#[trigger] stack@.contains(x)) implies
                            !stk0.contains(x) && x != w by {
                            if stk0.contains(x) {
                                let t = choose|t: int|
                                    0 <= t < stk0.len() && stk0[t] == x;
                                assert(stack@[t] == x);
                                assert(stack@.contains(x));
                            }
                            if x == w {
                                assert(stack@[stack@.len() - 1] == w);
                                assert(stack@.contains(x));
                            }
                        };
                    }
                } else {
                    proof {
                        assert(step(*self, v as int, w as int));
                    }
                }
                j += 1;
            }
            proof {
                assert forall|y: int| #[trigger] step(*self, v as int, y) implies 0 <= y
                    < n && vis@[y] by {
                    let vi = v as int;
                    let jj = choose|jj: int|
                        0 <= jj < self.inputs@[vi]@.len() && (self.inputs@[vi]@[jj]) as int
                            == y;
                    assert(vis@[(self.inputs@[v as int]@[jj]) as int]);
                };
            }
        }
        proof {
            assert(forall|x: usize| !(#[trigger] stack@.contains(x)));
            assert forall|i: int|
                0 <= i < vis@.len() implies (vis@[i] == reaches(*self, from as int, i)) by {
                if reaches(*self, from as int, i) {
                    let s = choose|s: Seq<int>|
                        is_path(*self, s) && s.first() == from as int && s.last() == i;
                    lemma_closed_set_reaches(*self, vis@, s);
                }
            };
        }
        vis
    }
}

/// Reaching a node that reaches a third node reaches the third node, by the
/// concatenation of the two walks.
pub proof fn lemma_reaches_trans(g: Graph, a: int, b: int, c: int)
    requires
        reaches(g, a, b),
        reaches(g, b, c),
    ensures
        reaches(g, a, c),
{
    let s1 = choose|s: Seq<int>| is_path(g, s) && s.first() == a && s.last() == b;
    let s2 = choose|s: Seq<int>| is_path(g, s) && s.first() == b && s.last() == c;
    let t = s1 + s2.skip(1);
    if s2.len() == 1 {
        assert(t =~= s1);
    } else {
        assert forall|i: int| 0 <= i < t.len() - 1 implies step(g, #[trigger] t[i], t[i + 1]) by {
            if i < s1.len() - 1 {
                assert(t[i] == s1[i] && t[i + 1] == s1[i + 1]);
            } else if i == s1.len() - 1 {
                assert(t[i] == b && t[i + 1] == s2[1]);
                assert(step(g, s2[0], s2[1]));
            } else {
                let j = i - s1.len();
                assert(t[i] == s2[j + 1] && t[i + 1] == s2[j + 2]);
                assert(step(g, s2[j + 1], s2[j + 2]));
            }
        };
        assert(t.first() == a && t.last() == c);
    }
}

/// Along any walk of a ranked graph the rank strictly descends.
proof fn lemma_rank_descends(g: Graph, rank: Seq<nat>, s: Seq<int>)
    requires
        g.wf_structure(),
        valid_ranking(g, rank),
        is_path(g, s),
        s.len() > 1,
    ensures
        0 <= s.last() < rank.len(),
        0 <= s.first() < rank.len(),
        rank[s.last()] < rank[s.first()],
    decreases s.len(),
{
    assert(step(g, s[0], s[1]));
    if s.len() == 2 {
        let j = choose|j: int|
            0 <= j < g.inputs@[s[0]]@.len() && (g.inputs@[s[0]]@[j]) as int == s[1];
        assert(0 <= s[1] < g.nodes@.len());
    } else {
        let t = s.skip(1);
        assert(forall|i: int| 0 <= i < t.len() ==> t[i] == s[i + 1]);
        assert(forall|i: int|
            0 <= i < t.len() - 1 ==> step(g, #[trigger] t[i], t[i + 1]));
        lemma_rank_descends(g, rank, t);
    }
}

/// In a well-formed graph no node is its own direct or transitive input: an
/// input of a node never reaches back to that node.
pub proof fn lemma_wf_no_cycle(g: Graph)
    requires
        g.wf(),
    ensures
        forall|a: int, b: int| #[trigger] step(g, a, b) ==> !reaches(g, b, a),
{
    let rank = choose|rk: Seq<nat>| valid_ranking(g, rk);
    assert forall|a: int, b: int| #[trigger] step(g, a, b) implies !reaches(g, b, a) by {
        if reaches(g, b, a) {
            let s = choose|s: Seq<int>| is_path(g, s) && s.first() == b && s.last() == a;
            let t = s.push(b);
            assert forall|i: int| 0 <= i < t.len() - 1 implies step(g, #[trigger] t[i], t[i + 1])
                by {
                if i < s.len() - 1 {
                    assert(t[i] == s[i] && t[i + 1] == s[i + 1]);
                } else {
                    assert(t[i] == a && t[i + 1] == b);
                }
            };
            lemma_rank_descends(g, rank, t);
            assert(rank[b] < rank[b]);
        }
    };
}

/// One stereo frame; every generator writes the same sample to both channels.
#[derive(Clone, Copy, PartialEq, Eq, Structural, Debug)]
pub struct Frame {
    pub left: i64,
    pub right: i64,
}

/// Addition of two samples, saturating at the 64-bit bounds.
pub open spec fn sat_add_spec(a: int, b: int) -> int {
    if a + b > i64::MAX {
        i64::MAX as int
    } else if a + b < i64::MIN {
        i64::MIN as int
    } else {
        a + b
    }
}

/// Saturating sample addition, computed through 128-bit intermediates.
pub fn sat_add(a: i64, b: i64) -> (r: i64)
    ensures
        r == sat_add_spec(a as int, b as int),
{
    let s: i128 = a as i128 + b as i128;
    if s > i64::MAX as i128 {
        i64::MAX
    } else if s < i64::MIN as i128 {
        i64::MIN
    } else {
        s as i64
    }
}

impl DspNode {
    /// The oscillator held by this node; meaningful only for `Oscillator`.
    pub open spec fn as_osc(&self) -> SinOsc
        recommends
            self is Oscillator,
    {
        match self {
            DspNode::Oscillator(o) => *o,
            DspNode::Synth => vstd::pervasive::arbitrary(),
        }
    }
}

/// The sample that node `id` contributes at block position `k`, from the node
/// states recorded in `g`, with recursion fuel `fuel`: an oscillator plays its
/// own phase-accumulated sine, and the synth mixes its direct inputs
/// additively, in input-list order.
pub open spec fn node_sample(g: Graph, rate: int, id: int, k: nat, fuel: nat) -> int
    decreases fuel, 0int, 0int,
{
    if fuel == 0 {
        0
    } else if 0 <= id < g.nodes@.len() && 0 <= id < g.inputs@.len() {
        match g.nodes@[id] {
            DspNode::Oscillator(o) => sample_at(o.phase as int, o.pitch() as int, rate, k),
            DspNode::Synth => mix_prefix(
                g,
                rate,
                g.inputs@[id]@,
                g.inputs@[id]@.len() as int,
                k,
                (fuel - 1) as nat,
            ),
        }
    } else {
        0
    }
}

/// The additive mix of the samples of the first `j` nodes in `list` at block
/// position `k`.
pub open spec fn mix_prefix(g: Graph, rate: int, list: Seq<NodeId>, j: int, k: nat, fuel: nat) -> int
    decreases fuel, j, 1int,
{
    if j <= 0 {
        0
    } else {
        sat_add_spec(
            mix_prefix(g, rate, list, j - 1, k, fuel),
            node_sample(g, rate, list[j - 1] as int, k, fuel),
        )
    }
}

/// How one whole rendered block relates an oscillator's state before to its
/// state after: the phase has advanced once per sample and the last output is
/// the block's last sample.
pub open spec fn osc_advanced(pre: SinOsc, rate: int, len: nat, post: SinOsc) -> bool {
    &&& post.phase == phase_at(pre.phase as int, pre.pitch() as int, rate, len)
    &&& (len > 0 ==> post.output == sample_at(pre.phase as int, pre.pitch() as int, rate, (len
        - 1) as nat))
    &&& (len == 0 ==> post.output == pre.output)
    &&& post.parameters == pre.parameters
    &&& post.input == pre.input
    &&& post.wf()
}

/// A fresh all-zero sample row of the given length.
fn zero_row(len: usize) -> (row: Vec<i64>)
    ensures
        row@.len() == len,
        forall|k: int| 0 <= k < len ==> row@[k] == 0,
{
    let mut row: Vec<i64> = Vec::new();
    let mut k: usize = 0;
    while k < len
        invariant
            k <= len,
            row@.len() == k,
            forall|t: int| 0 <= t < k ==> row@[t] == 0,
        decreases len - k,
    {
        row.push(0);
        k += 1;
    }
    row
}

/// An element-for-element copy of a sample row.
fn copy_row(src: &Vec<i64>) -> (row: Vec<i64>)
    ensures
        row@ == src@,
{
    let mut row: Vec<i64> = Vec::new();
    let mut k: usize = 0;
    let len = src.len();
    while k < len
        invariant
            k <= len,
            len == src@.len(),
            row@.len() == k,
            forall|t: int| 0 <= t < k ==> row@[t] == src@[t],
        decreases len - k,
    {
        row.push(src[k]);
        k += 1;
    }
    proof {
        assert(row@ =~= src@);
    }
    row
}

impl DspNode {
    /// Fills the buffer with this node's own signal: an oscillator overwrites
    /// every frame with its successive samples (the same value on both
    /// channels), while the synth leaves the buffer for the graph to mix.
    pub fn audio_requested(&mut self, buffer: &mut Vec<Frame>, sample_rate: u32)
        requires
            old(self).wf(),
            sample_rate > 0,
        ensures
            final(self).wf(),
            final(buffer)@.len() == old(buffer)@.len(),
            (*old(self)) is Synth ==> *final(self) == *old(self) && final(buffer)@ == old(buffer)@,
            (*old(self)) is Oscillator ==> {
                &&& (*final(self)) is Oscillator
                &&& osc_advanced(
                    old(self).as_osc(),
                    sample_rate as int,
                    old(buffer)@.len(),
                    final(self).as_osc(),
                )
                &&& forall|k: int|
                    0 <= k < old(buffer)@.len() ==> (#[trigger] final(buffer)@[k]).left
                        == sample_at(
                        old(self).as_osc().phase as int,
                        old(self).as_osc().pitch() as int,
                        sample_rate as int,
                        k as nat,
                    ) && final(buffer)@[k].right == final(buffer)@[k].left
            },
    {
        let len = buffer.len();
        match self {
            DspNode::Synth => {},
            DspNode::Oscillator(o) => {
                let samples = o.render_block(len, sample_rate);
                let mut out: Vec<Frame> = Vec::new();
                let mut k: usize = 0;
                while k < len
                    invariant
                        k <= len,
                        samples@.len() == len,
                        out@.len() == k,
                        forall|t: int|
                            0 <= t < k ==> out@[t] == (Frame {
                                left: samples@[t],
                                right: samples@[t],
                            }),
                    decreases len - k,
                {
                    let s = samples[k];
                    out.push(Frame { left: s, right: s });
                    k += 1;
                }
                *buffer = out;
            },
        }
    }
}

/// The tick-pass scratch rows hold, for every oscillator reachable from
/// `root`, exactly the samples that oscillator plays this block.
pub open spec fn scratch_for(
    g0: Graph,
    rate: int,
    root: int,
    scratch: Seq<Vec<i64>>,
    len: nat,
) -> bool {
    forall|t: int, k: int|
        0 <= t < g0.nodes@.len() && reaches(g0, root, t) && g0.nodes@[t] is Oscillator && 0 <= k
            < len ==> (#[trigger] scratch[t]@[k]) == sample_at(
            g0.nodes@[t].as_osc().phase as int,
            g0.nodes@[t].as_osc().pitch() as int,
            rate,
            k as nat,
        )
}

impl Graph {
    /// Mixes the block of node `id` from the scratch rows: an oscillator's
    /// row is copied, the synth's inputs are summed elementwise.
    fn mix_block(
        &self,
        Ghost(g0): Ghost<Graph>,
        Ghost(rate): Ghost<int>,
        id: NodeId,
        len: usize,
        fuel: usize,
        scratch: &Vec<Vec<i64>>,
    ) -> (out: Vec<i64>)
        requires
            g0.wf_structure(),
            self.inputs == g0.inputs,
            self.nodes@.len() == g0.nodes@.len(),
            (id as int) < g0.nodes@.len(),
            forall|t: int|
                0 <= t < g0.nodes@.len() ==> ((#[trigger] g0.nodes@[t]) is Oscillator
                    <==> self.nodes@[t] is Oscillator),
            scratch@.len() == g0.nodes@.len(),
            forall|t: int| 0 <= t < scratch@.len() ==> (#[trigger] scratch@[t])@.len() == len,
            scratch_for(g0, rate, id as int, scratch@, len as nat),
        ensures
            out@.len() == len,
            forall|k: int|
                0 <= k < len ==> out@[k] == node_sample(g0, rate, id as int, k as nat, fuel as nat),
        decreases fuel,
    {
        if fuel == 0 {
            return zero_row(len);
        }
        let is_osc = match &self.nodes[id] {
            DspNode::Oscillator(_) => true,
            DspNode::Synth => false,
        };
        if is_osc {
            let out = copy_row(&scratch[id]);
            proof {
                lemma_reaches_refl(g0, id as int);
                assert(g0.nodes@[id as int] is Oscillator);
                assert forall|k: int| 0 <= k < len implies out@[k] == node_sample(
                    g0,
                    rate,
                    id as int,
                    k as nat,
                    fuel as nat,
                ) by {
                    assert(scratch@[id as int]@[k] == sample_at(
                        g0.nodes@[id as int].as_osc().phase as int,
                        g0.nodes@[id as int].as_osc().pitch() as int,
                        rate,
                        k as nat,
                    ));
                };
            }
            out
        } else {
            let mut acc = zero_row(len);
            let deg = self.inputs[id].len();
            let ghost list = g0.inputs@[id as int]@;
            let mut j: usize = 0;
            while j < deg
                invariant
                    j <= deg,
                    g0.wf_structure(),
                    self.inputs == g0.inputs,
                    self.nodes@.len() == g0.nodes@.len(),
                    (id as int) < g0.nodes@.len(),
                    g0.nodes@[id as int] is Synth,
                    self.nodes@[id as int] is Synth,
                    forall|t: int|
                        0 <= t < g0.nodes@.len() ==> ((#[trigger] g0.nodes@[t]) is Oscillator
                            <==> self.nodes@[t] is Oscillator),
                    scratch@.len() == g0.nodes@.len(),
                    forall|t: int|
                        0 <= t < scratch@.len() ==> (#[trigger] scratch@[t])@.len() == len,
                    scratch_for(g0, rate, id as int, scratch@, len as nat),
                    list == g0.inputs@[id as int]@,
                    deg == list.len(),
                    fuel >= 1,
                    acc@.len() == len,
                    forall|k: int|
                        0 <= k < len ==> acc@[k] == mix_prefix(
                            g0,
                            rate,
                            list,
                            j as int,
                            k as nat,
                            (fuel - 1) as nat,
                        ),
                decreases deg - j,
            {
                let child = self.inputs[id][j];
                proof {
                    assert(0 <= (child as int) < g0.nodes@.len());
                    assert(step(g0, id as int, child as int)) by {
                        let ii = id as int;
                        assert(0 <= j < g0.inputs@[ii]@.len() && (g0.inputs@[ii]@[j as int]) as int
                            == child as int);
                    };
                    lemma_reaches_refl(g0, id as int);
                    lemma_reaches_extend(g0, id as int, id as int, child as int);
                    assert forall|t: int, k: int|
                        0 <= t < g0.nodes@.len() && reaches(g0, child as int, t) && g0.nodes@[t]
                            is Oscillator && 0 <= k < len implies (#[trigger] scratch@[t]@[k])
                        == sample_at(
                        g0.nodes@[t].as_osc().phase as int,
                        g0.nodes@[t].as_osc().pitch() as int,
                        rate,
                        k as nat,
                    ) by {
                        lemma_reaches_trans(g0, id as int, child as int, t);
                    };
                }
                let sub = self.mix_block(Ghost(g0), Ghost(rate), child, len, fuel - 1, scratch);
                let mut k: usize = 0;
                while k < len
                    invariant
                        k <= len,
                        acc@.len() == len,
                        sub@.len() == len,
                        j < deg,
                        deg == list.len(),
                        fuel >= 1,
                        forall|t: int|
                            0 <= t < len ==> sub@[t] == node_sample(
                                g0,
                                rate,
                                list[j as int] as int,
                                t as nat,
                                (fuel - 1) as nat,
                            ),
                        forall|t: int|
                            k <= t < len ==> acc@[t] == mix_prefix(
                                g0,
                                rate,
                                list,
                                j as int,
                                t as nat,
                                (fuel - 1) as nat,
                            ),
                        forall|t: int|
                            0 <= t < k ==> acc@[t] == mix_prefix(
                                g0,
                                rate,
                                list,
                                j as int + 1,
                                t as nat,
                                (fuel - 1) as nat,
                            ),
                    decreases len - k,
                {
                    let v = sat_add(acc[k], sub[k]);
                    *vstd::std_specs::vec::vec_index_mut(&mut acc, k) = v;
                    k += 1;
                }
                j += 1;
            }
            proof {
                assert forall|k: int| 0 <= k < len implies acc@[k] == node_sample(
                    g0,
                    rate,
                    id as int,
                    k as nat,
                    fuel as nat,
                ) by {
                    assert(acc@[k] == mix_prefix(g0, rate, list, deg as int, k as nat, (fuel
                        - 1) as nat));
                };
            }
            acc
        }
    }
}

impl Graph {
    /// An empty graph: no nodes, no edges, no master.
    pub fn new() -> (g: Graph)
        ensures
            g.wf(),
            g.nodes@.len() == 0,
            g.inputs@.len() == 0,
            g.master is None,
    {
        let g = Graph { nodes: Vec::new(), inputs: Vec::new(), master: None };
        proof {
            let rank = Seq::<nat>::empty();
            assert(valid_ranking(g, rank));
        }
        g
    }

    /// Adds a node with no inputs yet and returns its id; ids are handed out
    /// in insertion order.
    pub fn add_node(&mut self, node: DspNode) -> (id: NodeId)
        requires
            old(self).wf(),
            node.wf(),
        ensures
            final(self).wf(),
            id as int == old(self).nodes@.len(),
            final(self).nodes@ == old(self).nodes@.push(node),
            final(self).inputs@.len() == old(self).inputs@.len() + 1,
            forall|a: int|
                0 <= a < old(self).inputs@.len() ==> final(self).inputs@[a] == old(self).inputs@[a],
            final(self).inputs@[id as int]@.len() == 0,
            final(self).master == old(self).master,
    {
        let ghost oldg = *self;
        let id = self.nodes.len();
        self.nodes.push(node);
        self.inputs.push(Vec::new());
        proof {
            let rank0 = choose|rk: Seq<nat>| valid_ranking(oldg, rk);
            let rank = rank0.push(0nat);
            assert forall|a: int, b: int| #[trigger] step(*self, a, b) implies rank[b]
                < rank[a] by {
                let j = choose|j: int|
                    0 <= j < self.inputs@[a]@.len() && (#[trigger] self.inputs@[a]@[j]) as int
                        == b;
                assert(a < oldg.inputs@.len());
                assert(self.inputs@[a] == oldg.inputs@[a]);
                assert(0 <= j < oldg.inputs@[a]@.len() && (oldg.inputs@[a]@[j]) as int == b);
                assert(step(oldg, a, b));
                assert(0 <= b < oldg.nodes@.len());
            };
            assert(valid_ranking(*self, rank));
        }
        id
    }

    /// Designates, or clears, the master node that `render` mixes into.
    pub fn set_master(&mut self, m: Option<NodeId>) -> (r: Result<(), GraphError>)
        requires
            old(self).wf(),
        ensures
            final(self).wf(),
            final(self).nodes == old(self).nodes,
            final(self).inputs == old(self).inputs,
            match m {
                Some(id) => if (id as int) < old(self).nodes@.len() {
                    r is Ok && final(self).master == Some(id)
                } else {
                    r == Err::<(), GraphError>(GraphError::UnknownNode) && final(self).master == old(self).master
                },
                None => r is Ok && final(self).master is None,
            },
    {
        let ghost oldg = *self;
        let r = match m {
            Some(id) => if id < self.nodes.len() {
                self.master = Some(id);
                Ok(())
            } else {
                Err(GraphError::UnknownNode)
            },
            None => {
                self.master = None;
                Ok(())
            },
        };
        proof {
            let rank0 = choose|rk: Seq<nat>| valid_ranking(oldg, rk);
            assert forall|a: int, b: int| #[trigger] step(*self, a, b) implies rank0[b]
                < rank0[a] by {
                let j = choose|j: int|
                    0 <= j < self.inputs@[a]@.len() && (#[trigger] self.inputs@[a]@[j]) as int
                        == b;
                assert(0 <= j < oldg.inputs@[a]@.len() && (oldg.inputs@[a]@[j]) as int == b);
                assert(step(oldg, a, b));
            };
            assert(valid_ranking(*self, rank0));
        }
        r
    }

    /// Records that `child`'s output feeds `parent`'s summation. Fails with
    /// `UnknownNode` exactly when an id is out of the graph, and with
    /// `WouldCycle` exactly when `parent` is already `child` itself or one of
    /// `child`'s transitive inputs; on failure the graph is unchanged.
    pub fn add_input(&mut self, child: NodeId, parent: NodeId) -> (r: Result<(), GraphError>)
        requires
            old(self).wf(),
        ensures
            final(self).wf(),
            ((child as int) >= old(self).nodes@.len()
                || (parent as int) >= old(self).nodes@.len())
                ==> r == Err::<(), GraphError>(GraphError::UnknownNode) && *final(self) == *old(self),
            (child as int) < old(self).nodes@.len() && (parent as int) < old(self).nodes@.len()
                && reaches(*old(self), child as int, parent as int)
                ==> r == Err::<(), GraphError>(GraphError::WouldCycle) && *final(self) == *old(self),
            (child as int) < old(self).nodes@.len() && (parent as int) < old(self).nodes@.len()
                && !reaches(*old(self), child as int, parent as int) ==> {
                &&& r is Ok
                &&& final(self).nodes == old(self).nodes
                &&& final(self).master == old(self).master
                &&& final(self).inputs@.len() == old(self).inputs@.len()
                &&& forall|a: int|
                    0 <= a < old(self).inputs@.len() && a != parent as int
                        ==> final(self).inputs@[a] == old(self).inputs@[a]
                &&& final(self).inputs@[parent as int]@
                    == old(self).inputs@[parent as int]@.push(child)
            },
    {
        let n = self.nodes.len();
        if child >= n || parent >= n {
            return Err(GraphError::UnknownNode);
        }
        let vis = self.reachable_from(child);
        if vis[parent] {
            return Err(GraphError::WouldCycle);
        }
        let ghost oldg = *self;
        let ghost visg = vis@;
        proof {
            lemma_reaches_refl(oldg, child as int);
        }
        vstd::std_specs::vec::vec_index_mut(&mut self.inputs, parent).push(child);
        proof {
            let pi = parent as int;
            assert(self.inputs@ == oldg.inputs@.update(pi, self.inputs@[pi]));
            assert(self.inputs@[pi]@ == oldg.inputs@[pi]@.push(child));
            let rank0 = choose|rk: Seq<nat>| valid_ranking(oldg, rk);
            let bump = rank0[child as int] + 1;
            let rank = Seq::<nat>::new(
                rank0.len(),
                |i: int| if 0 <= i < visg.len() && visg[i] {
                    rank0[i]
                } else {
                    (rank0[i] + bump) as nat
                },
            );
            assert forall|a: int, b: int| #[trigger] step(*self, a, b) implies rank[b]
                < rank[a] by {
                let j = choose|j: int|
                    0 <= j < self.inputs@[a]@.len() && (#[trigger] self.inputs@[a]@[j]) as int
                        == b;
                if a == pi && j == oldg.inputs@[pi]@.len() {
                    assert(b == child as int);
                    assert(visg[child as int]);
                    assert(!visg[pi]);
                    assert(rank[b] == rank0[child as int]);
                    assert(rank[a] == rank0[pi] + bump);
                } else {
                    assert(0 <= j < oldg.inputs@[a]@.len() && (oldg.inputs@[a]@[j]) as int == b);
                    assert(step(oldg, a, b));
                    assert(0 <= b < oldg.nodes@.len());
                    assert(rank0[b] < rank0[a]);
                    if visg[a] {
                        lemma_reaches_extend(oldg, child as int, a, b);
                        assert(visg[b]);
                    }
                }
            };
            assert(valid_ranking(*self, rank));
        }
        Ok(())
    }
}

/// The sample that the oscillator at node `i` plays at block position `k`.
pub open spec fn osc_sample_of(g: Graph, i: int, rate: int, k: nat) -> int {
    sample_at(
        g.nodes@[i].as_osc().phase as int,
        g.nodes@[i].as_osc().pitch() as int,
        rate,
        k,
    )
}

/// Orphan silence: a synth master with no inputs mixes to exactly zero at
/// every sample position, whatever fuel drives the recursion.
pub proof fn lemma_orphan_silence(g: Graph, rate: int, m: int, k: nat, fuel: nat)
    requires
        0 <= m < g.nodes@.len(),
        0 <= m < g.inputs@.len(),
        g.nodes@[m] is Synth,
        g.inputs@[m]@.len() == 0,
    ensures
        node_sample(g, rate, m, k, fuel) == 0,
{
}

/// Mixing: a master fed by exactly two oscillators yields, at every sample
/// position, the exact sum of the two oscillators' individually computed
/// samples; the amplitude bound keeps the sum far from saturating.
pub proof fn lemma_two_oscillator_mix(g: Graph, rate: int, m: int, k: nat, fuel: nat)
    requires
        g.wf(),
        rate > 0,
        fuel >= 2,
        0 <= m < g.nodes@.len(),
        g.nodes@[m] is Synth,
        g.inputs@[m]@.len() == 2,
        g.nodes@[g.inputs@[m]@[0] as int] is Oscillator,
        g.nodes@[g.inputs@[m]@[1] as int] is Oscillator,
    ensures
        node_sample(g, rate, m, k, fuel) == osc_sample_of(g, g.inputs@[m]@[0] as int, rate, k)
            + osc_sample_of(g, g.inputs@[m]@[1] as int, rate, k),
{
    let list = g.inputs@[m]@;
    let i0 = list[0] as int;
    let i1 = list[1] as int;
    let f1 = (fuel - 1) as nat;
    let o0 = g.nodes@[i0].as_osc();
    let o1 = g.nodes@[i1].as_osc();
    assert(g.nodes@[i0].wf() && g.nodes@[i1].wf());
    assert(o0.wf() && o1.wf());
    let s0 = osc_sample_of(g, i0, rate, k);
    let s1 = osc_sample_of(g, i1, rate, k);
    crate::osc::lemma_phase_stays_wrapped(o0.phase as int, o0.pitch() as int, rate, k + 1);
    crate::osc::lemma_sine_wave_bounded(
        phase_at(o0.phase as int, o0.pitch() as int, rate, k + 1),
    );
    crate::osc::lemma_phase_stays_wrapped(o1.phase as int, o1.pitch() as int, rate, k + 1);
    crate::osc::lemma_sine_wave_bounded(
        phase_at(o1.phase as int, o1.pitch() as int, rate, k + 1),
    );
    assert(node_sample(g, rate, i0, k, f1) == s0);
    assert(node_sample(g, rate, i1, k, f1) == s1);
    assert(mix_prefix(g, rate, list, 0, k, f1) == 0);
    assert(mix_prefix(g, rate, list, 1, k, f1) == sat_add_spec(0, s0));
    assert(mix_prefix(g, rate, list, 2, k, f1) == sat_add_spec(sat_add_spec(0, s0), s1));
    assert(node_sample(g, rate, m, k, fuel) == mix_prefix(g, rate, list, 2, k, f1));
}

/// How one rendered block leaves node `i` of graph `g0` whose master is `m`:
/// a reachable oscillator advances once per sample; every other node is
/// untouched.
pub open spec fn node_after_render(
    g0: Graph,
    rate: int,
    len: nat,
    m: int,
    i: int,
    post: DspNode,
) -> bool {
    if g0.nodes@[i] is Oscillator && reaches(g0, m, i) {
        post is Oscillator && osc_advanced(g0.nodes@[i].as_osc(), rate, len, post.as_osc())
    } else {
        post == g0.nodes@[i]
    }
}

impl Graph {
    /// Renders one block into `buffer`, keeping its length. With no master
    /// set the buffer is silence and the graph is untouched. Otherwise every
    /// oscillator reachable from the master advances once per sample, and
    /// each frame holds the master's additive mix on both channels;
    /// oscillators not reachable from the master are not rendered and do not
    /// advance.
    pub fn render(&mut self, buffer: &mut Vec<Frame>, sample_rate: u32)
        requires
            old(self).wf(),
            sample_rate > 0,
        ensures
            final(self).wf(),
            final(buffer)@.len() == old(buffer)@.len(),
            final(self).inputs == old(self).inputs,
            final(self).master == old(self).master,
            final(self).nodes@.len() == old(self).nodes@.len(),
            old(self).master is None ==> *final(self) == *old(self) && (forall|k: int|
                0 <= k < old(buffer)@.len() ==> final(buffer)@[k] == (Frame {
                    left: 0i64,
                    right: 0i64,
                })),
            (match old(self).master {
                Some(m) => {
                    &&& forall|k: int|
                        0 <= k < old(buffer)@.len() ==> (#[trigger] final(buffer)@[k]).left
                            == node_sample(
                            *old(self),
                            sample_rate as int,
                            m as int,
                            k as nat,
                            old(self).nodes@.len() as nat,
                        ) && final(buffer)@[k].right == final(buffer)@[k].left
                    &&& forall|i: int|
                        0 <= i < old(self).nodes@.len() ==> node_after_render(
                            *old(self),
                            sample_rate as int,
                            old(buffer)@.len() as nat,
                            m as int,
                            i,
                            (#[trigger] final(self).nodes@[i]),
                        )
                },
                None => true,
            }),
    {
        let ghost g0 = *old(self);
        let len = buffer.len();
        let m = match self.master {
            None => {
                let mut out: Vec<Frame> = Vec::new();
                let mut k: usize = 0;
                while k < len
                    invariant
                        k <= len,
                        out@.len() == k,
                        forall|t: int|
                            0 <= t < k ==> out@[t] == (Frame { left: 0i64, right: 0i64 }),
                    decreases len - k,
                {
                    out.push(Frame { left: 0, right: 0 });
                    k += 1;
                }
                *buffer = out;
                return ;
            },
            Some(m) => m,
        };
        let n = self.nodes.len();
        let vis = self.reachable_from(m);
        let mut scratch: Vec<Vec<i64>> = Vec::new();
        let mut i: usize = 0;
        while i < n
            invariant
                i <= n,
                n == g0.nodes@.len(),
                sample_rate > 0,
                self.nodes@.len() == n,
                self.inputs == g0.inputs,
                self.master == g0.master,
                g0.wf_structure(),
                (m as int) < n,
                g0.master == Some(m),
                vis@.len() == n,
                forall|t: int| 0 <= t < n ==> (vis@[t] == reaches(g0, m as int, t)),
                scratch@.len() == i,
                forall|t: int| 0 <= t < i ==> (#[trigger] scratch@[t])@.len() == len,
                forall|t: int| i <= t < n ==> (#[trigger] self.nodes@[t]) == g0.nodes@[t],
                forall|t: int|
                    0 <= t < i ==> node_after_render(
                        g0,
                        sample_rate as int,
                        len as nat,
                        m as int,
                        t,
                        (#[trigger] self.nodes@[t]),
                    ),
                forall|t: int, k: int|
                    0 <= t < i && g0.nodes@[t] is Oscillator && reaches(g0, m as int, t) && 0 <= k
                        < len ==> (#[trigger] scratch@[t]@[k]) == sample_at(
                        g0.nodes@[t].as_osc().phase as int,
                        g0.nodes@[t].as_osc().pitch() as int,
                        sample_rate as int,
                        k as nat,
                    ),
            decreases n - i,
        {
            let reachable = vis[i];
            let node_ref = vstd::std_specs::vec::vec_index_mut(&mut self.nodes, i);
            match node_ref {
                DspNode::Oscillator(o) => {
                    if reachable {
                        let samples = o.render_block(len, sample_rate);
                        scratch.push(samples);
                    } else {
                        scratch.push(zero_row(len));
                    }
                },
                DspNode::Synth => {
                    scratch.push(zero_row(len));
                },
            }
            i += 1;
        }
        proof {
            assert forall|t: int|
                0 <= t < n implies ((#[trigger] g0.nodes@[t]) is Oscillator <==> self.nodes@[t]
                is Oscillator) by {
                assert(node_after_render(
                    g0,
                    sample_rate as int,
                    len as nat,
                    m as int,
                    t,
                    self.nodes@[t],
                ));
            };
            assert(scratch_for(g0, sample_rate as int, m as int, scratch@, len as nat));
        }
        let mixed = self.mix_block(Ghost(g0), Ghost(sample_rate as int), m, len, n, &scratch);
        let mut out: Vec<Frame> = Vec::new();
        let mut k: usize = 0;
        while k < len
            invariant
                k <= len,
                mixed@.len() == len,
                out@.len() == k,
                forall|t: int|
                    0 <= t < k ==> out@[t] == (Frame { left: mixed@[t], right: mixed@[t] }),
            decreases len - k,
        {
            let s = mixed[k];
            out.push(Frame { left: s, right: s });
            k += 1;
        }
        *buffer = out;
        proof {
            let rank0 = choose|rk: Seq<nat>| valid_ranking(g0, rk);
            assert forall|a: int, b: int| #[trigger] step(*self, a, b) implies rank0[b]
                < rank0[a] by {
                let j = choose|j: int|
                    0 <= j < self.inputs@[a]@.len() && (#[trigger] self.inputs@[a]@[j]) as int
                        == b;
                assert(0 <= j < g0.inputs@[a]@.len() && (g0.inputs@[a]@[j]) as int == b);
                assert(step(g0, a, b));
            };
            assert(valid_ranking(*self, rank0));
        }
    }
}

} // verus!
