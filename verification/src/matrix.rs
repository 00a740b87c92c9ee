use vstd::prelude::*;
use crate::scalar::Scalar;

verus! {

/// The rows of a matrix, each as a sequence.
pub open spec fn rows(matrix: &Vec<Vec<Scalar>>) -> Seq<Seq<Scalar>> {
    Seq::new(matrix@.len(), |i: int| matrix@[i]@)
}

/// Whether `d` has `n` rows of `n` entries each.
pub open spec fn is_square(d: Seq<Seq<Scalar>>, n: int) -> bool {
    &&& d.len() == n
    &&& forall|i: int| 0 <= i < n ==> (#[trigger] d[i]).len() == n
}

/// Tells whether `matrix` has as many entries in every row as it has rows.
pub fn check_square(matrix: &Vec<Vec<Scalar>>) -> (r: bool)
    ensures
        r == is_square(rows(matrix), matrix@.len() as int),
{
    let n = matrix.len();
    let mut i: usize = 0;
    while i < n
        invariant
            i <= n,
            n == matrix@.len(),
            forall|j: int| 0 <= j < i ==> (#[trigger] rows(matrix)[j]).len() == n,
        decreases n - i,
    {
        if matrix[i].len() != n {
            assert(rows(matrix)[i as int].len() != n);
            return false;
        }
        i += 1;
    }
    true
}

} // verus!
