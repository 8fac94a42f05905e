//! Cutting a string at a list of offsets.
use vstd::prelude::*;

use crate::text::{chars_of, string_of};

verus! {

/// Whether `ind` is a list of non-decreasing offsets into a string of length `n`.
pub open spec fn valid_cuts(ind: Seq<usize>, n: int) -> bool {
    &&& forall|a: int, b: int| 0 <= a < b < ind.len() ==> ind[a] <= ind[b]
    &&& forall|k: int| 0 <= k < ind.len() ==> ind[k] <= n
}

/// Piece `k` of `s` cut at `ind`: from `ind[k]` up to the next offset, or to the end.
pub open spec fn piece(s: Seq<char>, ind: Seq<usize>, k: int) -> Seq<char> {
    let end = if k + 1 < ind.len() {
        ind[k + 1] as int
    } else {
        s.len() as int
    };
    s.subrange(ind[k] as int, end)
}

/// Splitting a string into pieces at given character offsets.
pub trait SplitAtIndices {
    /// The pieces of `self` that start at each offset of `indices` and end at the next one,
    /// or at the end for the last.
    fn split_at_indices(&self, indices: &[usize]) -> (r: Vec<String>)
        requires
            valid_cuts(indices@, self.chars_view().len() as int),
        ensures
            r@.len() == indices@.len(),
            forall|k: int|
                0 <= k < indices@.len() ==> #[trigger] r@[k]@ == piece(
                    self.chars_view(),
                    indices@,
                    k,
                ),
    ;

    /// The characters of `self`.
    spec fn chars_view(&self) -> Seq<char>;
}

impl SplitAtIndices for str {
    open spec fn chars_view(&self) -> Seq<char> {
        self@
    }

    fn split_at_indices(&self, indices: &[usize]) -> (r: Vec<String>) {
        let cs = chars_of(self);
        split_chars(&cs, indices)
    }
}

/// The pieces of `cs` cut at `indices`.
pub fn split_chars(cs: &Vec<char>, indices: &[usize]) -> (r: Vec<String>)
    requires
        valid_cuts(indices@, cs@.len() as int),
    ensures
        r@.len() == indices@.len(),
        forall|k: int| 0 <= k < indices@.len() ==> #[trigger] r@[k]@ == piece(cs@, indices@, k),
{
    let n = indices.len();
    let mut r: Vec<String> = Vec::new();
    let mut k: usize = 0;
    while k < n
        invariant
            n == indices@.len(),
            k <= n,
            valid_cuts(indices@, cs@.len() as int),
            r@.len() == k,
            forall|j: int| 0 <= j < k ==> #[trigger] r@[j]@ == piece(cs@, indices@, j),
        decreases n - k,
    {
        let end = if k + 1 < n {
            indices[k + 1]
        } else {
            cs.len()
        };
        assert(indices@[k as int] <= end);
        r.push(string_of(cs, indices[k], end));
        k = k + 1;
    }
    r
}

} // verus!
