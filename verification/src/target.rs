//! Opaque handles to circuit values. A `Target` has identity only; its value
//! exists solely in a witness. `U32Target` and `BoolTarget` tag targets whose
//! producing constraints keep them below 2^32, respectively in {0, 1}.

use vstd::prelude::*;

verus! {

/// A handle to one circuit value: an index into the witness store.
#[derive(Clone, Copy, Debug, PartialEq, Eq, Structural)]
pub struct Target {
    pub index: usize,
}

/// A target constrained, by whichever row produced it, to hold a value
/// below 2^32.
#[derive(Clone, Copy, Debug, PartialEq, Eq, Structural)]
pub struct U32Target(pub Target);

/// A target constrained to hold 0 or 1.
#[derive(Clone, Copy, Debug, PartialEq, Eq, Structural)]
pub struct BoolTarget {
    pub target: Target,
}

} // verus!
