use vstd::prelude::*;

verus! {

/// Why a batch cannot be scored against a query.
#[derive(Debug, PartialEq, Eq)]
pub enum SimilarityError {
    /// The candidate at `index` has `found` components where the query has `expected`.
    DimensionMismatch { index: usize, expected: usize, found: usize },
    /// A vector has zero Euclidean norm, so its direction is undefined.
    DegenerateVector,
}

/// Every candidate has as many components as the query.
pub open spec fn same_dimension(candidates: Seq<Vec<u32>>, query: Seq<u32>) -> bool {
    forall|i: int| 0 <= i < candidates.len() ==> (#[trigger] candidates[i]).len() == query.len()
}

/// Checks that every candidate vector shares the query's dimension; on a
/// mismatch, reports the first candidate that differs.
pub fn check_dimensions(candidates: &Vec<Vec<u32>>, query: &Vec<u32>) -> (r: Result<(), SimilarityError>)
    ensures
        r is Ok <==> same_dimension(candidates@, query@),
        match r {
            Ok(()) => true,
            Err(SimilarityError::DimensionMismatch { index, expected, found }) => {
                &&& index < candidates.len()
                &&& expected == query.len()
                &&& found == candidates@[index as int].len()
                &&& found != expected
                &&& same_dimension(candidates@.take(index as int), query@)
            },
            Err(SimilarityError::DegenerateVector) => false,
        },
{
    let mut i: usize = 0;
    while i < candidates.len()
        invariant
            i <= candidates.len(),
            same_dimension(candidates@.take(i as int), query@),
        decreases candidates.len() - i,
    {
        if candidates[i].len() != query.len() {
            assert(!same_dimension(candidates@, query@) || candidates@[i as int].len() == query.len());
            return Err(SimilarityError::DimensionMismatch { index: i, expected: query.len(), found: candidates[i].len() });
        }
        assert forall|j: int| 0 <= j < i + 1 implies (#[trigger] candidates@.take(i + 1)[j]).len() == query@.len() by {
            if j < i {
                assert(candidates@.take(i + 1)[j] == candidates@.take(i as int)[j]);
            }
        }
        i = i + 1;
    }
    assert(candidates@.take(candidates.len() as int) =~= candidates@);
    Ok(())
}

} // verus!
