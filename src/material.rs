use vstd::prelude::*;

verus! {

/// Placeholder material: it neither emits nor reflects, and its sampling
/// returns a zero direction with density one.
pub struct DummyMaterial {}

} // verus!
