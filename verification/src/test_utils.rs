use vstd::prelude::*;
use crate::distance_mat::{matrix_wf, DistanceMat};
use crate::utils::is_in;

verus! {

/// The three-location distance table that the tests price routes
/// against.
pub fn test_dist_mat() -> (r: DistanceMat)
    ensures
        matrix_wf(r@),
        r@ =~~= seq![seq![0u64, 1u64, 2u64], seq![1u64, 0u64, 3u64], seq![2u64, 3u64, 0u64]],
{
    let distances: Vec<Vec<u64>> = vec![vec![0, 1, 2], vec![1, 0, 3], vec![2, 3, 0]];
    let r = DistanceMat::new(distances);
    proof {
        assert(r@ =~~= seq![
            seq![0u64, 1u64, 2u64],
            seq![1u64, 0u64, 3u64],
            seq![2u64, 3u64, 0u64],
        ]);
    }
    r
}

/// Is `permutation` a reordering of `sequence`: the same length, over
/// exactly the same set of values?
pub fn valid_permutation(sequence: &Vec<usize>, permutation: &Vec<usize>) -> (r: bool)
    ensures
        r == (sequence@.len() == permutation@.len() && (forall|v: usize|
            sequence@.contains(v) <==> permutation@.contains(v))),
{
    if sequence.len() != permutation.len() {
        return false;
    }
    let mut i: usize = 0;
    while i < sequence.len()
        invariant
            0 <= i <= sequence@.len(),
            forall|j: int| 0 <= j < i ==> permutation@.contains(#[trigger] sequence@[j]),
        decreases sequence@.len() - i,
    {
        if !is_in(sequence[i], permutation) {
            proof {
                assert(sequence@.contains(sequence@[i as int]));
            }
            return false;
        }
        i = i + 1;
    }
    let mut j: usize = 0;
    while j < permutation.len()
        invariant
            0 <= j <= permutation@.len(),
            forall|k: int| 0 <= k < sequence@.len() ==> permutation@.contains(
                #[trigger] sequence@[k],
            ),
            forall|k: int| 0 <= k < j ==> sequence@.contains(#[trigger] permutation@[k]),
        decreases permutation@.len() - j,
    {
        if !is_in(permutation[j], sequence) {
            proof {
                assert(permutation@.contains(permutation@[j as int]));
            }
            return false;
        }
        j = j + 1;
    }
    proof {
        assert forall|v: usize| sequence@.contains(v) <==> permutation@.contains(v) by {
            if sequence@.contains(v) {
                let k = choose|k: int| 0 <= k < sequence@.len() && sequence@[k] == v;
                assert(permutation@.contains(sequence@[k]));
            }
            if permutation@.contains(v) {
                let k = choose|k: int| 0 <= k < permutation@.len() && permutation@[k] == v;
                assert(sequence@.contains(permutation@[k]));
            }
        }
    }
    true
}

} // verus!
