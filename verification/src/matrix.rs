//! Matrices of fixed-point values stored as rows of `Vec`s.
use vstd::prelude::*;

verus! {

/// The rows of a matrix of `Vec`s, as sequences.
pub open spec fn rows_view(m: Seq<Vec<i32>>) -> Seq<Seq<i32>> {
    Seq::new(m.len(), |i: int| m[i]@)
}

/// A copy of a matrix.
pub(crate) fn copy_matrix(m: &Vec<Vec<i32>>) -> (c: Vec<Vec<i32>>)
    ensures
        c@.len() == m@.len(),
        forall|i: int| 0 <= i < m@.len() ==> (#[trigger] c@[i])@ == m@[i]@,
{
    let mut c: Vec<Vec<i32>> = Vec::new();
    let mut i: usize = 0;
    while i < m.len()
        invariant
            i <= m@.len(),
            c@.len() == i,
            forall|a: int| 0 <= a < i ==> (#[trigger] c@[a])@ == m@[a]@,
        decreases m@.len() - i,
    {
        c.push(m[i].clone());
        i = i + 1;
    }
    c
}

} // verus!
