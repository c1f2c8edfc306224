use vstd::prelude::*;

verus! {

/// An amount of mana.
#[derive(Debug)]
pub struct ManaData {
    pub amount: num_bigint::BigUint,
}

} // verus!
