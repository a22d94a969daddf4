use vstd::prelude::*;

verus! {

/// The server's greeting.
pub struct Welcome {
    pub version: u8,
}

} // verus!
