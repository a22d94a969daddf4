use vstd::prelude::*;

verus! {

/// Input of the monstrous-maze challenge: the maze, one line per row ('Y'
/// the start, 'X' the exit, '#' a wall, 'M' a monster), and the endurance.
pub struct MonstrousMazeInput {
    pub grid: String,
    pub endurance: u32,
}

impl Clone for MonstrousMazeInput {
    fn clone(&self) -> (copy: Self)
        ensures
            copy == *self,
    {
        MonstrousMazeInput { grid: self.grid.clone(), endurance: self.endurance }
    }
}

} // verus!
