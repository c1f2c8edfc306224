use vstd::prelude::*;

verus! {

/// Errors of signers and verifiers.
#[derive(Debug, Clone, Copy)]
pub enum SignerError {
    SignatureMessageMismatch,
}

/// The text of a signer error.
pub open spec fn signer_error_text(e: SignerError) -> Seq<char> {
    match e {
        SignerError::SignatureMessageMismatch => "Signature doesn't match message"@,
    }
}

impl SignerError {
    /// The message describing the error.
    pub fn message(&self) -> (r: &'static str)
        ensures
            r@ == signer_error_text(*self),
    {
        match self {
            SignerError::SignatureMessageMismatch => "Signature doesn't match message",
        }
    }
}

} // verus!
