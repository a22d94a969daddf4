use vstd::prelude::*;

verus! {

/// Answer to the MD5 hash-cash challenge: the seed that was found and the
/// digest, in upper-case hexadecimal, of the seeded message.
pub struct MD5HashCashOutput {
    pub seed: u64,
    pub hashcode: String,
}

} // verus!
