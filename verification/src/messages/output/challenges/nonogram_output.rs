use vstd::prelude::*;

verus! {

/// Answer to the nonogram challenge: the grid as text, one line per row,
/// '#' for a filled cell and ' ' for an empty one.
pub struct NonogramSolverOutput {
    pub grid: String,
}

} // verus!
