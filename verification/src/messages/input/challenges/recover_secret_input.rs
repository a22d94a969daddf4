use vstd::prelude::*;

verus! {

/// Input of the recover-secret challenge: the letters of all the tuples,
/// one after the other, and the size of each tuple.
pub struct RecoverSecretInput {
    pub word_count: usize,
    pub letters: String,
    pub tuple_sizes: Vec<usize>,
}

impl Clone for RecoverSecretInput {
    fn clone(&self) -> (copy: Self)
        ensures
            copy.word_count == self.word_count,
            copy.letters@ == self.letters@,
            copy.tuple_sizes@ == self.tuple_sizes@,
    {
        let mut sizes: Vec<usize> = Vec::new();
        let mut i: usize = 0;
        while i < self.tuple_sizes.len()
            invariant
                i <= self.tuple_sizes.len(),
                sizes@ == self.tuple_sizes@.subrange(0, i as int),
            decreases self.tuple_sizes.len() - i,
        {
            sizes.push(self.tuple_sizes[i]);
            assert(sizes@ =~= self.tuple_sizes@.subrange(0, i + 1));
            i = i + 1;
        }
        assert(self.tuple_sizes@.subrange(0, i as int) =~= self.tuple_sizes@);
        RecoverSecretInput {
            word_count: self.word_count,
            letters: self.letters.clone(),
            tuple_sizes: sizes,
        }
    }
}

} // verus!
