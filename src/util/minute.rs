use vstd::prelude::*;

verus! {

/// A duration, in minutes.
#[derive(Debug, Default, Clone, Copy, PartialEq, Eq, Structural)]
pub struct Minute(pub u32);

} // verus!
