use vstd::prelude::*;

verus! {

/// The data of a Flo entity.
#[derive(Debug)]
pub struct FloEntityData {}

} // verus!
