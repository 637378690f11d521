use vstd::prelude::*;

verus! {

/// A weight, in kilograms.
#[derive(Debug, Default, Clone, Copy, PartialEq, Eq, Structural)]
pub struct Kilogram(pub u32);

} // verus!
