use vstd::prelude::*;

verus! {

/// Whether `indices` holds `amount` positions below `length`, no two of them equal.
pub open spec fn distinct_indices(indices: Seq<usize>, length: nat, amount: nat) -> bool {
    &&& indices.len() == amount
    &&& forall|i: int| 0 <= i < indices.len() ==> (#[trigger] indices[i]) < length
    &&& forall|i: int, j: int| 0 <= i < j < indices.len() ==> indices[i] != indices[j]
}

/// Draws `amount` positions out of `0..length` with `rand::seq::index::sample`, fed by the
/// generator that `rand::thread_rng` hands out.
///
/// Trusted, not proved: the positions come back in range and pairwise distinct. Which ones
/// are drawn, and in what order, is left open. The `requires` keeps away the inputs on which
/// `sample` stops: more positions asked for than there are, and all of them asked for out of
/// more than `u32::MAX`.
#[verifier::external_body]
pub(crate) fn sample_indices(length: usize, amount: usize) -> (indices: Vec<usize>)
    requires
        amount <= length,
        amount < length || length <= u32::MAX,
    ensures
        distinct_indices(indices@, length as nat, amount as nat),
{
    rand::seq::index::sample(&mut rand::thread_rng(), length, amount).into_vec()
}

} // verus!
