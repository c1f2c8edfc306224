use vstd::prelude::*;

verus! {

/// The signature of an identity.
pub struct Identitiesignature {}

} // verus!
