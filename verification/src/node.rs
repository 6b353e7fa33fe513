use vstd::prelude::*;

verus! {

/// A node that advances its internal state by one sample at a given sample
/// rate (in Hz).
pub trait SignalProcessor: Sized {
    /// What states the node may be asked to process from.
    spec fn can_process(pre: Self) -> bool;

    /// How one processing step relates the state before to the state after.
    spec fn processed(pre: Self, sample_rate: u32, post: Self) -> bool;

    fn process(&mut self, sample_rate: u32)
        requires
            Self::can_process(*old(self)),
            sample_rate > 0,
        ensures
            Self::processed(*old(self), sample_rate, *final(self)),
    ;
}

/// A node with a store of tunable values keyed by an id type `T`; a key that
/// was never set reads as zero.
pub trait Parametric<T>: Sized {
    /// The value currently stored under `id`, or zero if none is.
    spec fn param_val(&self, id: T) -> i64;

    /// How setting one parameter relates the state before to the state after.
    spec fn param_set(pre: Self, id: T, value: i64, post: Self) -> bool;

    fn set_parameter(&mut self, id: T, value: i64)
        ensures
            Self::param_set(*old(self), id, value, *final(self)),
            forall|k: T|
                #[trigger] final(self).param_val(k) == if k == id {
                    value
                } else {
                    old(self).param_val(k)
                },
    ;

    fn parameter(&mut self, id: T) -> (r: i64)
        ensures
            *final(self) == *old(self),
            r == old(self).param_val(id),
    ;
}

/// A node that accepts one input sample.
pub trait SignalReceiver: Sized {
    /// How accepting an input sample relates the state before to the after.
    spec fn input_set(pre: Self, value: i64, post: Self) -> bool;

    fn set_input(&mut self, value: i64)
        ensures
            Self::input_set(*old(self), value, *final(self)),
    ;
}

/// A node that exposes its most recently computed output sample.
pub trait SignalGenerator: Sized {
    /// The sample that `output` hands out.
    spec fn out_val(&self) -> i64;

    fn output(&mut self) -> (r: i64)
        ensures
            *final(self) == *old(self),
            r == old(self).out_val(),
    ;
}

} // verus!
