use vstd::prelude::*;

verus! {

/// Answer to the monstrous-maze challenge: the moves from the start to the
/// exit ('^', 'v', '<', '>').
pub struct MonstrousMazeOutput {
    pub path: String,
}

} // verus!
