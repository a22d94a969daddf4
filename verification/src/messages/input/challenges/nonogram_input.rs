use vstd::prelude::*;

verus! {

/// Input of the nonogram challenge: the run lengths of every row and of
/// every column.
pub struct NonogramSolverInput {
    pub rows: Vec<Vec<u32>>,
    pub cols: Vec<Vec<u32>>,
}

/// The clues as nested sequences.
pub open spec fn clue_rows(v: &Vec<Vec<u32>>) -> Seq<Seq<u32>> {
    Seq::new(v.len() as nat, |i: int| v@[i]@)
}

/// A copy of the clues.
pub fn copy_clues(v: &Vec<Vec<u32>>) -> (r: Vec<Vec<u32>>)
    ensures
        clue_rows(&r) == clue_rows(v),
{
    let mut r: Vec<Vec<u32>> = Vec::new();
    let mut i: usize = 0;
    while i < v.len()
        invariant
            i <= v.len(),
            r.len() == i,
            forall|t: int| 0 <= t < i ==> #[trigger] r@[t]@ == v@[t]@,
        decreases v.len() - i,
    {
        let row = &v[i];
        let mut c: Vec<u32> = Vec::new();
        let mut k: usize = 0;
        while k < row.len()
            invariant
                k <= row.len(),
                c@ == row@.subrange(0, k as int),
            decreases row.len() - k,
        {
            c.push(row[k]);
            assert(c@ =~= row@.subrange(0, k + 1));
            k = k + 1;
        }
        assert(row@.subrange(0, row.len() as int) =~= row@);
        r.push(c);
        i = i + 1;
    }
    assert(clue_rows(&r) =~= clue_rows(v));
    r
}

impl Clone for NonogramSolverInput {
    fn clone(&self) -> (copy: Self)
        ensures
            clue_rows(&copy.rows) == clue_rows(&self.rows),
            clue_rows(&copy.cols) == clue_rows(&self.cols),
    {
        NonogramSolverInput { rows: copy_clues(&self.rows), cols: copy_clues(&self.cols) }
    }
}

} // verus!
