use vstd::prelude::*;

verus! {

/// Answer to the recover-secret challenge.
pub struct RecoverSecretOutput {
    pub secret_sentence: String,
}

} // verus!
