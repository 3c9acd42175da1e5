//! The calculator value: a handle whose only setting is whether evaluation
//! should be traced step by step.

use vstd::prelude::*;

verus! {

/// An RPN calculator. The flag asks for a diagnostic trace of the operand
/// stack after every step of an evaluation; it never changes a result.
pub struct RpnCalculator(bool);

impl RpnCalculator {
    pub closed spec fn tracing(&self) -> bool {
        self.0
    }

    /// A calculator that does not trace.
    pub fn new() -> (r: Self)
        ensures
            !r.tracing(),
    {
        RpnCalculator(false)
    }

    /// A calculator that traces its evaluations when `trace` is set.
    pub fn with_trace(trace: bool) -> (r: Self)
        ensures
            r.tracing() == trace,
    {
        RpnCalculator(trace)
    }

    pub fn is_tracing(&self) -> (r: bool)
        ensures
            r == self.tracing(),
    {
        self.0
    }
}

} // verus!
