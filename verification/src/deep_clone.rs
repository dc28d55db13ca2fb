//! Copying values with a proven view.
//!
//! Coverage records own strings and vectors, so a derived `Clone` says
//! nothing useful in a contract. Types whose values the merge engine must
//! copy implement `DeepClone`, whose one method promises that the copy has
//! the same view as the original.

use vstd::prelude::*;

verus! {

/// A copy that provably preserves the view.
pub trait DeepClone: View + Sized {
    fn deep_clone(&self) -> (r: Self)
        ensures
            r@ == self@,
    ;
}

impl DeepClone for u32 {
    fn deep_clone(&self) -> (r: u32)
        ensures
            r@ == self@,
    {
        *self
    }
}

impl DeepClone for Vec<u32> {
    fn deep_clone(&self) -> (r: Vec<u32>)
        ensures
            r@ == self@,
    {
        let mut r: Vec<u32> = Vec::new();
        let n = self.len();
        let mut i: usize = 0;
        while i < n
            invariant
                0 <= i <= n,
                n == self@.len(),
                r@ =~= self@.take(i as int),
            decreases n - i,
        {
            r.push(self[i]);
            i = i + 1;
        }
        assert(r@ =~= self@);
        r
    }
}

} // verus!
