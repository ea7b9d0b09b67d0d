use vstd::prelude::*;

verus! {

/// A parameter problem reported to the caller before any sampling begins,
/// or the one internal invariant fault the design reserves a defensive
/// signal for.
#[derive(Clone, Copy, Debug, PartialEq, Eq, Structural)]
pub enum SamplerError {
    /// The scale parameter is not strictly positive.
    InvalidScale,
    /// The precision does not leave every per-bit power-of-two exponent
    /// representable in a 32-bit integer.
    InvalidPrecision,
    /// A bias comparison stayed tied through every refinement round the
    /// machine can afford.  An exact unbounded-precision tie is a
    /// measure-zero event for the continuous biases, so this signals a bug
    /// in the bias computation, not a recoverable condition.
    InternalFault,
}

/// Smallest accepted fixed-point precision.  Each bit of a sample targets the
/// power-of-two exponent `63 - idx - precision`; keeping the precision at
/// least this far above `i32::MIN` keeps every such exponent, and the negated
/// precision used for the sign bit, inside the 32-bit range.
pub const MIN_PRECISION: i32 = -2147483520;

/// A strictly positive scale parameter, held exactly as `mant * 2^exp2`.
/// Every positive finite double has such a representation, so callers that
/// start from one can convert without loss.
#[derive(Clone, Copy, Debug, PartialEq, Eq, Structural)]
pub struct Scale {
    pub mant: u64,
    pub exp2: i32,
}

impl Scale {
    /// The represented value `mant * 2^exp2` is strictly positive.
    pub open spec fn wf(self) -> bool {
        self.mant >= 1
    }

    /// Accepts exactly the strictly positive scales: a zero mantissa is the
    /// one way this representation can fail to be positive.
    pub fn new(mant: u64, exp2: i32) -> (r: Result<Scale, SamplerError>)
        ensures
            mant >= 1 <==> r is Ok,
            r matches Ok(s) ==> s.wf() && s.mant == mant && s.exp2 == exp2,
            r matches Err(e) ==> e == SamplerError::InvalidScale,
    {
        if mant >= 1 {
            Ok(Scale { mant, exp2 })
        } else {
            Err(SamplerError::InvalidScale)
        }
    }
}

} // verus!
