use vstd::prelude::*;

verus! {

/// The request to join the game under a name.
pub struct Subscribe {
    pub name: String,
}

} // verus!
