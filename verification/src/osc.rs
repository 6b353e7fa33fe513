use vstd::prelude::*;
use vstd::arithmetic::div_mod::{lemma_div_by_multiple, lemma_div_is_ordered, lemma_div_of0, lemma_fundamental_div_mod};
use crate::node::{Parametric, SignalGenerator, SignalProcessor, SignalReceiver};

verus! {

/// One full-scale sample in fixed-point sample units (a million).
pub const UNIT: i64 = 1_000_000;

/// The fixed oscillator amplitude: a tenth of full scale, so that several
/// oscillators can sum without clipping.
pub const AMPLITUDE: i64 = 100_000;

/// One full cycle of oscillator phase, in phase ticks (2^32).
pub const PHASE_ONE: i64 = 4_294_967_296;

/// Half a cycle of phase; a wrapped phase lies in `[-PHASE_HALF, PHASE_HALF)`.
pub const PHASE_HALF: i64 = 2_147_483_648;

/// 2^16, the coarsening step of the sine shape.
pub const Q16: i64 = 65_536;

/// 2^30, the normalizer of the sine shape.
pub const Q30: i64 = 1_073_741_824;

/// The magnitude of the sine shape at a phase magnitude `q` of at most half a
/// cycle: the parabola `4 * x * (1 - x)` over the half cycle `x = q / PHASE_HALF`,
/// scaled to peak at exactly `AMPLITUDE`, evaluated on 2^16-coarse steps.
pub open spec fn sine_mag(q: int) -> int {
    let a = q / (Q16 as int);
    let b = ((PHASE_HALF as int) - q) / (Q16 as int);
    (4 * (AMPLITUDE as int) * a * b) / (Q30 as int)
}

/// The oscillator's output sample for a wrapped phase `p`: an odd function of
/// phase, zero at phase zero and at half a cycle, peaking at `AMPLITUDE` a
/// quarter cycle in.
pub open spec fn sine_wave_spec(p: int) -> int {
    if p >= 0 {
        sine_mag(p)
    } else {
        -sine_mag(-p)
    }
}

/// The sine magnitude never exceeds `AMPLITUDE` and is never negative.
pub proof fn lemma_sine_mag_bounded(q: int)
    requires
        0 <= q <= PHASE_HALF,
    ensures
        0 <= sine_mag(q) <= AMPLITUDE,
{
    let a = q / (Q16 as int);
    let b = ((PHASE_HALF as int) - q) / (Q16 as int);
    lemma_fundamental_div_mod(q, Q16 as int);
    lemma_fundamental_div_mod((PHASE_HALF as int) - q, Q16 as int);
    assert(0 <= a && 0 <= b && a + b <= 32_768);
    assert(a * b <= 16_384 * 16_384) by (nonlinear_arith)
        requires
            0 <= a && 0 <= b && a + b <= 32_768,
    ;
    assert(4 * AMPLITUDE * a * b <= 4 * AMPLITUDE * (16_384 * 16_384)) by (nonlinear_arith)
        requires
            0 <= a && 0 <= b && a * b <= 16_384 * 16_384,
    ;
    assert(0 <= 4 * AMPLITUDE * a * b) by (nonlinear_arith)
        requires
            0 <= a && 0 <= b,
    ;
    lemma_div_of0(Q30 as int);
    lemma_div_is_ordered(0, 4 * AMPLITUDE * a * b, Q30 as int);
    lemma_div_is_ordered(4 * AMPLITUDE * a * b, 4 * AMPLITUDE * (16_384 * 16_384), Q30 as int);
    assert((4 * (AMPLITUDE as int) * (16_384 * 16_384)) / (Q30 as int) == AMPLITUDE) by {
        assert(4 * (AMPLITUDE as int) * (16_384 * 16_384) == (AMPLITUDE as int) * (Q30 as int))
            by (nonlinear_arith);
        lemma_div_by_multiple(AMPLITUDE as int, Q30 as int);
    };
}

/// The output sample is bounded by the amplitude at every wrapped phase.
pub proof fn lemma_sine_wave_bounded(p: int)
    requires
        -PHASE_HALF <= p < PHASE_HALF,
    ensures
        -AMPLITUDE <= sine_wave_spec(p) <= AMPLITUDE,
{
    if p >= 0 {
        lemma_sine_mag_bounded(p);
    } else {
        lemma_sine_mag_bounded(-p);
    }
}

/// The output sample is exactly zero at phase zero and at half a cycle.
pub proof fn lemma_sine_wave_zeroes()
    ensures
        sine_wave_spec(0) == 0,
        sine_wave_spec(-PHASE_HALF) == 0,
{
    assert(sine_mag(0) == 0) by {
        lemma_div_of0(Q16 as int);
        lemma_div_of0(Q30 as int);
        let b0 = ((PHASE_HALF as int) - 0) / (Q16 as int);
        assert(4 * (AMPLITUDE as int) * 0 * b0 == 0) by (nonlinear_arith);
    };
    assert(sine_mag(PHASE_HALF as int) == 0) by {
        lemma_div_of0(Q16 as int);
        lemma_div_of0(Q30 as int);
        let a = (PHASE_HALF as int) / (Q16 as int);
        assert(((PHASE_HALF as int) - (PHASE_HALF as int)) / (Q16 as int) == 0);
        assert(4 * (AMPLITUDE as int) * a * 0 == 0) by (nonlinear_arith);
        assert(0int / (Q30 as int) == 0);
    };
}

/// The absolute value of an integer.
pub open spec fn abs_of(x: int) -> int {
    if x >= 0 {
        x
    } else {
        -x
    }
}

/// The per-sample phase advance, in phase ticks, for a frequency `freq` (in
/// sample units per second, so `440 * UNIT` is 440 Hz) at `rate` samples per
/// second: `freq / (UNIT * rate)` cycles, reduced into `[0, PHASE_ONE)` around
/// the phase circle, so that one conditional subtraction rewraps the phase.
pub open spec fn phase_increment(freq: int, rate: int) -> int {
    let mag = (abs_of(freq) * (PHASE_ONE as int)) / ((UNIT as int) * rate);
    let m = mag % (PHASE_ONE as int);
    if freq >= 0 {
        m
    } else {
        ((PHASE_ONE as int) - m) % (PHASE_ONE as int)
    }
}

/// Renormalizes a phase that overshot by less than one cycle back into
/// `[-PHASE_HALF, PHASE_HALF)` with a single wrap-around step.
pub open spec fn wrap_phase(p: int) -> int {
    if p >= PHASE_HALF {
        p - (PHASE_ONE as int)
    } else {
        p
    }
}

/// The phase after one processing step from phase `p` at frequency `freq` and
/// sample rate `rate`.
pub open spec fn next_phase(p: int, freq: int, rate: int) -> int {
    wrap_phase(p + phase_increment(freq, rate))
}

/// The phase after `n` processing steps from phase `p0`.
pub open spec fn phase_at(p0: int, freq: int, rate: int, n: nat) -> int
    decreases n,
{
    if n == 0 {
        p0
    } else {
        next_phase(phase_at(p0, freq, rate, (n - 1) as nat), freq, rate)
    }
}

/// The sample written at block position `k` by an oscillator that starts the
/// block at phase `p0`: the phase advances first, then the sine is read.
pub open spec fn sample_at(p0: int, freq: int, rate: int, k: nat) -> int {
    sine_wave_spec(phase_at(p0, freq, rate, k + 1))
}

/// The phase increment always lies within one cycle, whatever the frequency.
pub proof fn lemma_increment_in_cycle(freq: int, rate: int)
    requires
        rate > 0,
    ensures
        0 <= phase_increment(freq, rate) < PHASE_ONE,
{
}

/// One step from a wrapped phase lands on a wrapped phase.
pub proof fn lemma_next_phase_wrapped(p: int, freq: int, rate: int)
    requires
        rate > 0,
        -PHASE_HALF <= p < PHASE_HALF,
    ensures
        -PHASE_HALF <= next_phase(p, freq, rate) < PHASE_HALF,
{
    lemma_increment_in_cycle(freq, rate);
}

/// The phase wrap invariant: starting from any wrapped phase, the phase is
/// still within `[-PHASE_HALF, PHASE_HALF)` after any number of processing
/// steps, for every frequency and every positive sample rate.
pub proof fn lemma_phase_stays_wrapped(p0: int, freq: int, rate: int, n: nat)
    requires
        rate > 0,
        -PHASE_HALF <= p0 < PHASE_HALF,
    ensures
        -PHASE_HALF <= phase_at(p0, freq, rate, n) < PHASE_HALF,
    decreases n,
{
    if n > 0 {
        lemma_phase_stays_wrapped(p0, freq, rate, (n - 1) as nat);
        lemma_next_phase_wrapped(phase_at(p0, freq, rate, (n - 1) as nat), freq, rate);
    }
}

/// Zero-frequency determinism: at frequency zero and initial phase zero, the
/// phase and every emitted sample stay exactly zero, at every sample rate.
pub proof fn lemma_zero_frequency_silence(rate: int, n: nat)
    requires
        rate > 0,
    ensures
        phase_at(0, 0, rate, n) == 0,
        n > 0 ==> sample_at(0, 0, rate, (n - 1) as nat) == 0,
    decreases n,
{
    assert(phase_increment(0, rate) == 0) by {
        assert((0 * (PHASE_ONE as int)) / ((UNIT as int) * rate) == 0) by {
            assert(0 * (PHASE_ONE as int) == 0) by (nonlinear_arith);
            assert((UNIT as int) * rate >= 1) by (nonlinear_arith)
                requires
                    rate > 0,
            ;
        };
    };
    lemma_sine_wave_zeroes();
    if n > 0 {
        lemma_zero_frequency_silence(rate, (n - 1) as nat);
    }
}

/// The per-sample phase advance, computed in integers only.
pub fn phase_increment_exec(freq: i64, rate: u32) -> (r: i64)
    requires
        rate > 0,
    ensures
        r == phase_increment(freq as int, rate as int),
        0 <= r < PHASE_ONE,
{
    let mag_abs: u128 = if freq < 0 {
        (-(freq as i128)) as u128
    } else {
        freq as u128
    };
    proof {
        assert(mag_abs * (PHASE_ONE as u128) <= 0x8000_0000_0000_0000 * (PHASE_ONE as int))
            by (nonlinear_arith)
            requires
                mag_abs <= 0x8000_0000_0000_0000,
        ;
        assert((UNIT as int) * (rate as int) <= (UNIT as int) * 0x1_0000_0000) by (nonlinear_arith)
            requires
                rate <= 0xffff_ffffu32,
        ;
        assert((UNIT as int) * (rate as int) >= 1) by (nonlinear_arith)
            requires
                rate >= 1,
        ;
    }
    let mag: u128 = (mag_abs * (PHASE_ONE as u128)) / ((UNIT as u128) * (rate as u128));
    let m: u128 = mag % (PHASE_ONE as u128);
    if freq < 0 {
        (((PHASE_ONE as u128) - m) % (PHASE_ONE as u128)) as i64
    } else {
        m as i64
    }
}

/// The sample emitted for a wrapped phase `p`, computed in integers only.
pub fn sine_wave(p: i64) -> (r: i64)
    requires
        -PHASE_HALF <= p < PHASE_HALF,
    ensures
        r == sine_wave_spec(p as int),
        -AMPLITUDE <= r <= AMPLITUDE,
{
    proof {
        lemma_sine_wave_bounded(p as int);
    }
    let q: u64 = if p < 0 {
        (-(p as i128)) as u64
    } else {
        p as u64
    };
    proof {
        lemma_sine_mag_bounded(q as int);
        lemma_fundamental_div_mod(q as int, Q16 as int);
        lemma_fundamental_div_mod((PHASE_HALF as int) - (q as int), Q16 as int);
    }
    let a: u64 = q / (Q16 as u64);
    let b: u64 = ((PHASE_HALF as u64) - q) / (Q16 as u64);
    let m: u64 = (4 * (AMPLITUDE as u64) * a * b) / (Q30 as u64);
    if p < 0 {
        -(m as i64)
    } else {
        m as i64
    }
}

/// The ids of the tunable parameters of a sine oscillator.
#[derive(Clone, Copy, PartialEq, Eq, Structural, Debug, Hash)]
pub enum SinOscParameters {
    Pitch,
}

/// The value stored under `id` in an association list; the first match wins.
pub open spec fn stored(s: Seq<(SinOscParameters, i64)>, id: SinOscParameters) -> Option<i64>
    decreases s.len(),
{
    if s.len() == 0 {
        None
    } else if s[0].0 == id {
        Some(s[0].1)
    } else {
        stored(s.skip(1), id)
    }
}

/// The value stored under `id`, defaulting to zero when the key is absent.
pub open spec fn stored_or_zero(s: Seq<(SinOscParameters, i64)>, id: SinOscParameters) -> i64 {
    match stored(s, id) {
        Some(v) => v,
        None => 0,
    }
}

/// A lookup skips over any prefix that misses the key.
proof fn lemma_stored_prefix_miss(s: Seq<(SinOscParameters, i64)>, id: SinOscParameters, i: int)
    requires
        0 <= i <= s.len(),
        forall|j: int| 0 <= j < i ==> (#[trigger] s[j]).0 != id,
    ensures
        stored(s, id) == stored(s.skip(i), id),
    decreases i,
{
    if i > 0 {
        lemma_stored_prefix_miss(s.skip(1), id, i - 1);
        assert(s.skip(1).skip(i - 1) =~= s.skip(i));
        assert(forall|j: int| 0 <= j < i - 1 ==> (#[trigger] s.skip(1)[j]).0 != id);
    }
}

/// Overwriting the slot that holds `id` leaves every other key's value alone.
proof fn lemma_stored_update_other(
    s: Seq<(SinOscParameters, i64)>,
    i: int,
    id: SinOscParameters,
    v: i64,
    k: SinOscParameters,
)
    requires
        0 <= i < s.len(),
        s[i].0 == id,
        k != id,
    ensures
        stored(s.update(i, (id, v)), k) == stored(s, k),
    decreases s.len(),
{
    let t = s.update(i, (id, v));
    if i == 0 {
        assert(t.skip(1) =~= s.skip(1));
    } else {
        if s[0].0 != k {
            lemma_stored_update_other(s.skip(1), i - 1, id, v, k);
            assert(t.skip(1) =~= s.skip(1).update(i - 1, (id, v)));
        }
    }
}

/// Appending an entry is only visible to its own key, and only when that key
/// was absent.
proof fn lemma_stored_push(
    s: Seq<(SinOscParameters, i64)>,
    id: SinOscParameters,
    v: i64,
    k: SinOscParameters,
)
    ensures
        stored(s.push((id, v)), k) == if stored(s, k) is Some {
            stored(s, k)
        } else if k == id {
            Some(v)
        } else {
            None::<i64>
        },
    decreases s.len(),
{
    let t = s.push((id, v));
    if s.len() == 0 {
        assert(t[0] == (id, v));
        assert(t.skip(1) =~= Seq::<(SinOscParameters, i64)>::empty());
    } else {
        assert(t[0] == s[0]);
        if s[0].0 != k {
            lemma_stored_push(s.skip(1), id, v, k);
            assert(t.skip(1) =~= s.skip(1).push((id, v)));
        }
    }
}

/// A typed key-to-value store for a node's tunable parameters; a key that was
/// never set reads as zero, and setting a key overwrites its previous value.
pub struct ParamStore {
    pub entries: Vec<(SinOscParameters, i64)>,
}

impl ParamStore {
    /// The value this store holds under `id`, defaulting to zero.
    pub open spec fn spec_get(&self, id: SinOscParameters) -> i64 {
        stored_or_zero(self.entries@, id)
    }

    /// A fresh store holds nothing: every key reads as zero.
    pub fn new() -> (r: Self)
        ensures
            r.entries@.len() == 0,
            forall|k: SinOscParameters| #[trigger] stored(r.entries@, k) is None,
    {
        ParamStore { entries: Vec::new() }
    }

    /// Inserts or overwrites the value keyed by `id`; the last write wins.
    pub fn set(&mut self, id: SinOscParameters, value: i64)
        ensures
            forall|k: SinOscParameters|
                #[trigger] stored(final(self).entries@, k) == if k == id {
                    Some(value)
                } else {
                    stored(old(self).entries@, k)
                },
    {
        let n = self.entries.len();
        let mut i: usize = 0;
        while i < n
            invariant
                i <= n,
                n == self.entries@.len(),
                self.entries@ == old(self).entries@,
                forall|j: int| 0 <= j < i ==> (#[trigger] self.entries@[j]).0 != id,
            decreases n - i,
        {
            if self.entries[i].0 == id {
                let ghost s = self.entries@;
                *vstd::std_specs::vec::vec_index_mut(&mut self.entries, i) = (id, value);
                proof {
                    let t = self.entries@;
                    assert(t == s.update(i as int, (id, value)));
                    lemma_stored_prefix_miss(t, id, i as int);
                    assert(t.skip(i as int)[0] == (id, value));
                    assert(forall|k: SinOscParameters|
                        k != id ==> stored(t, k) == stored(s, k)) by {
                        assert forall|k: SinOscParameters| k != id implies stored(t, k) == stored(
                            s,
                            k,
                        ) by {
                            lemma_stored_update_other(s, i as int, id, value, k);
                        };
                    };
                }
                return ;
            }
            i += 1;
        }
        let ghost s = self.entries@;
        self.entries.push((id, value));
        proof {
            lemma_stored_prefix_miss(s, id, n as int);
            assert(s.skip(n as int) =~= Seq::<(SinOscParameters, i64)>::empty());
            assert forall|k: SinOscParameters| true implies #[trigger] stored(
                self.entries@,
                k,
            ) == if k == id {
                Some(value)
            } else {
                stored(s, k)
            } by {
                lemma_stored_push(s, id, value, k);
            };
        }
    }

    /// The stored value under `id`, or zero if the key was never set.
    pub fn get(&self, id: SinOscParameters) -> (r: i64)
        ensures
            r == self.spec_get(id),
    {
        let n = self.entries.len();
        let mut i: usize = 0;
        while i < n
            invariant
                i <= n,
                n == self.entries@.len(),
                forall|j: int| 0 <= j < i ==> (#[trigger] self.entries@[j]).0 != id,
            decreases n - i,
        {
            if self.entries[i].0 == id {
                proof {
                    lemma_stored_prefix_miss(self.entries@, id, i as int);
                    assert(self.entries@.skip(i as int)[0] == self.entries@[i as int]);
                }
                return self.entries[i].1;
            }
            i += 1;
        }
        proof {
            lemma_stored_prefix_miss(self.entries@, id, n as int);
            assert(self.entries@.skip(n as int) =~= Seq::<(SinOscParameters, i64)>::empty());
        }
        0
    }
}

/// A phase-accumulating sine oscillator: each processing step advances the
/// phase by `pitch / (UNIT * sample_rate)` cycles, rewraps it, and emits
/// `sine_wave_spec(phase)`, a sine sample scaled to `AMPLITUDE`.
pub struct SinOsc {
    pub phase: i64,
    pub output: i64,
    pub input: i64,
    pub parameters: ParamStore,
}

impl SinOsc {
    /// Well-formed: the phase is wrapped and the last output is within the
    /// amplitude bound.
    pub open spec fn wf(&self) -> bool {
        &&& -PHASE_HALF <= self.phase < PHASE_HALF
        &&& -AMPLITUDE <= self.output <= AMPLITUDE
    }

    /// The oscillator's frequency: the `Pitch` parameter, zero when unset.
    pub open spec fn pitch(&self) -> i64 {
        self.parameters.spec_get(SinOscParameters::Pitch)
    }

    /// A fresh oscillator: phase, output and input all zero, no parameters.
    pub fn new() -> (r: Self)
        ensures
            r.wf(),
            r.phase == 0,
            r.output == 0,
            r.input == 0,
            r.pitch() == 0,
            forall|k: SinOscParameters| #[trigger] stored(r.parameters.entries@, k) is None,
    {
        SinOsc { phase: 0, output: 0, input: 0, parameters: ParamStore::new() }
    }

    /// One processing step, under the name the step goes by at the graph's
    /// sample clock.
    pub fn tick(&mut self, sample_rate: u32)
        requires
            old(self).wf(),
            sample_rate > 0,
        ensures
            SignalProcessor::processed(*old(self), sample_rate, *final(self)),
    {
        self.process(sample_rate);
    }

    /// Writes `len` successive samples into a fresh buffer, advancing the
    /// phase once per sample; the phase moves first, then the sine is read.
    pub fn render_block(&mut self, len: usize, sample_rate: u32) -> (samples: Vec<i64>)
        requires
            old(self).wf(),
            sample_rate > 0,
        ensures
            samples@.len() == len,
            forall|k: int|
                0 <= k < len ==> samples@[k] == sample_at(
                    old(self).phase as int,
                    old(self).pitch() as int,
                    sample_rate as int,
                    k as nat,
                ),
            final(self).phase == phase_at(
                old(self).phase as int,
                old(self).pitch() as int,
                sample_rate as int,
                len as nat,
            ),
            len > 0 ==> final(self).output == samples@[len - 1],
            len == 0 ==> final(self).output == old(self).output,
            final(self).parameters == old(self).parameters,
            final(self).input == old(self).input,
            final(self).wf(),
    {
        let ghost p0 = old(self).phase as int;
        let ghost freq = old(self).pitch() as int;
        let ghost rate = sample_rate as int;
        let mut samples: Vec<i64> = Vec::new();
        let mut k: usize = 0;
        while k < len
            invariant
                k <= len,
                sample_rate > 0,
                rate == sample_rate as int,
                self.wf(),
                samples@.len() == k,
                self.parameters == old(self).parameters,
                self.input == old(self).input,
                freq == self.pitch() as int,
                self.phase == phase_at(p0, freq, rate, k as nat),
                forall|j: int| 0 <= j < k ==> samples@[j] == sample_at(p0, freq, rate, j as nat),
                k > 0 ==> self.output == samples@[k - 1],
                k == 0 ==> self.output == old(self).output,
            decreases len - k,
        {
            self.process(sample_rate);
            samples.push(self.output);
            proof {
                assert(phase_at(p0, freq, rate, (k + 1) as nat) == next_phase(
                    phase_at(p0, freq, rate, k as nat),
                    freq,
                    rate,
                ));
            }
            k += 1;
        }
        samples
    }
}

impl SignalProcessor for SinOsc {
    open spec fn can_process(pre: Self) -> bool {
        pre.wf()
    }

    open spec fn processed(pre: Self, sample_rate: u32, post: Self) -> bool {
        &&& post.phase == next_phase(pre.phase as int, pre.pitch() as int, sample_rate as int)
        &&& post.output == sine_wave_spec(post.phase as int)
        &&& post.input == pre.input
        &&& post.parameters == pre.parameters
        &&& post.wf()
    }

    fn process(&mut self, sample_rate: u32) {
        let freq = self.parameters.get(SinOscParameters::Pitch);
        let inc = phase_increment_exec(freq, sample_rate);
        let mut p = self.phase + inc;
        if p >= PHASE_HALF {
            p = p - PHASE_ONE;
        }
        self.phase = p;
        self.output = sine_wave(p);
    }
}

impl Parametric<SinOscParameters> for SinOsc {
    open spec fn param_val(&self, id: SinOscParameters) -> i64 {
        self.parameters.spec_get(id)
    }

    open spec fn param_set(pre: Self, id: SinOscParameters, value: i64, post: Self) -> bool {
        &&& post.phase == pre.phase
        &&& post.output == pre.output
        &&& post.input == pre.input
        &&& forall|k: SinOscParameters|
            #[trigger] stored(post.parameters.entries@, k) == if k == id {
                Some(value)
            } else {
                stored(pre.parameters.entries@, k)
            }
    }

    fn set_parameter(&mut self, id: SinOscParameters, value: i64) {
        self.parameters.set(id, value);
    }

    fn parameter(&mut self, id: SinOscParameters) -> (r: i64) {
        self.parameters.get(id)
    }
}

impl SignalGenerator for SinOsc {
    open spec fn out_val(&self) -> i64 {
        self.output
    }

    fn output(&mut self) -> (r: i64) {
        self.output
    }
}

impl SignalReceiver for SinOsc {
    open spec fn input_set(pre: Self, value: i64, post: Self) -> bool {
        &&& post.input == value
        &&& post.phase == pre.phase
        &&& post.output == pre.output
        &&& post.parameters == pre.parameters
    }

    fn set_input(&mut self, value: i64) {
        self.input = value;
    }
}

} // verus!
