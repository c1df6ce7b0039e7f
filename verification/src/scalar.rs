use vstd::prelude::*;

verus! {

/// A value of the language's numeric domain.
///
/// The interpreter never computes with scalars: it only moves them between
/// tokens, trees, the variable state and the tasks it hands to its caller.
/// The caller gives the bits their numeric meaning (the reference driver
/// reads them as an IEEE-754 single-precision number).
#[derive(Clone, Copy, PartialEq, Eq, Structural, Debug)]
pub struct Scalar {
    pub bits: u32,
}

impl View for Scalar {
    type V = Scalar;

    open spec fn view(&self) -> Scalar {
        *self
    }
}

impl DeepView for Scalar {
    type V = Scalar;

    open spec fn deep_view(&self) -> Scalar {
        *self
    }
}

impl Scalar {
    /// The all-zero scalar, the value a declaration binds a fresh variable
    /// to (as an IEEE-754 bit pattern it reads as positive zero).
    pub fn zero() -> (r: Scalar)
        ensures
            r.bits == 0,
    {
        Scalar { bits: 0 }
    }
}

} // verus!
