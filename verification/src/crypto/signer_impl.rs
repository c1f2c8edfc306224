use vstd::prelude::*;

verus! {

/// Signer of the ML-DSA-44 algorithm.
pub struct SignerMlDSA44 {}

/// Verifier of the ML-DSA-44 algorithm.
pub struct VerifierMlDSA44 {}

/// Signer of the ML-DSA-65 algorithm.
pub struct SignerMlDSA65 {}

/// Verifier of the ML-DSA-65 algorithm.
pub struct VerifierMlDSA65 {}

/// Signer of the ML-DSA-87 algorithm.
pub struct SignerMlDSA87 {}

/// Verifier of the ML-DSA-87 algorithm.
pub struct VerifierMlDSA87 {}

} // verus!
