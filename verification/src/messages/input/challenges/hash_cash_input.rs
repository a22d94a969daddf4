use vstd::prelude::*;

verus! {

/// Input of the MD5 hash-cash challenge: the number of leading zero bits
/// wanted in the digest, and the message that follows the seed.
pub struct Md5HashCashInput {
    pub complexity: i32,
    pub message: String,
}

impl Clone for Md5HashCashInput {
    fn clone(&self) -> (copy: Self)
        ensures
            copy == *self,
    {
        Md5HashCashInput { complexity: self.complexity, message: self.message.clone() }
    }
}

} // verus!
