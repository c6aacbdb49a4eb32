//! Drawing distinct rows at random.

use rand::rngs::StdRng;
use rand::seq::SliceRandom;
use rand::SeedableRng;
use vstd::prelude::*;
use vstd::seq_lib::*;

verus! {

/// `rand::rngs::StdRng`, the generator that the draws are taken from. Its
/// state is opaque to the proofs.
#[verifier::external_type_specification]
#[verifier::external_body]
pub struct ExStdRng(StdRng);

/// Calls `SeedableRng::seed_from_u64` for `StdRng`. Nothing is claimed of the
/// generator that it returns.
#[verifier::external_body]
pub(crate) fn generator_from_seed(seed: u64) -> (source: StdRng) {
    StdRng::seed_from_u64(seed)
}

/// Calls `rand::random::<u64>()`, which draws from the thread-local generator
/// that the system seeds. Nothing is claimed of the value.
#[verifier::external_body]
pub(crate) fn random_seed() -> (seed: u64) {
    rand::random::<u64>()
}

/// Calls `SliceRandom::shuffle` on the vector's slice. The method only swaps
/// entries, so what the vector holds afterwards is a rearrangement of what it
/// held before; nothing is claimed of the order.
#[verifier::external_body]
pub(crate) fn shuffle(indices: &mut Vec<usize>, source: &mut StdRng)
    ensures
        final(indices)@.to_multiset() == old(indices)@.to_multiset(),
{
    indices.shuffle(source);
}

/// The sequence `0, 1, .., n - 1`.
pub open spec fn ascending(n: nat) -> Seq<usize> {
    Seq::new(n, |i: int| i as usize)
}

/// Whether `picks` names `count` different rows of a matrix with `rows` rows,
/// and all of them where `count == rows`.
pub open spec fn is_selection(picks: Seq<usize>, count: nat, rows: nat) -> bool {
    &&& picks.len() == count
    &&& forall|i: int| 0 <= i < picks.len() ==> picks[i] < rows
    &&& picks.no_duplicates()
    &&& count == rows ==> forall|r: usize| r < rows ==> picks.contains(r)
}

/// A rearrangement of `0 .. n` holds every index below `n` once, and nothing
/// else.
pub proof fn lemma_rearranged_ascending(shuffled: Seq<usize>, n: nat)
    requires
        n <= usize::MAX,
        shuffled.to_multiset() == ascending(n).to_multiset(),
    ensures
        shuffled.len() == n,
        shuffled.no_duplicates(),
        forall|i: int| 0 <= i < shuffled.len() ==> shuffled[i] < n,
        forall|r: usize| r < n ==> shuffled.contains(r),
{
    let base = ascending(n);
    assert(base.no_duplicates());
    base.to_multiset_ensures();
    shuffled.to_multiset_ensures();
    base.lemma_multiset_has_no_duplicates();
    shuffled.lemma_multiset_has_no_duplicates_conv();
    assert forall|i: int| 0 <= i < shuffled.len() implies shuffled[i] < n by {
        assert(shuffled.contains(shuffled[i]));
        assert(shuffled.to_multiset().count(shuffled[i]) > 0);
        assert(base.to_multiset().count(shuffled[i]) > 0);
        let at = choose|at: int| 0 <= at < base.len() && base[at] == shuffled[i];
        assert(base[at] == at);
    }
    assert forall|r: usize| r < n implies shuffled.contains(r) by {
        assert(base[r as int] == r);
        assert(base.contains(r));
        assert(base.to_multiset().count(r) > 0);
        assert(shuffled.to_multiset().count(r) > 0);
    }
}

/// Draws `count` different row indices below `rows`: the first `count`
/// entries of a random rearrangement of all of them.
pub fn select_rows(rows: usize, count: usize, source: &mut StdRng) -> (picks: Vec<usize>)
    requires
        count <= rows,
    ensures
        is_selection(picks@, count as nat, rows as nat),
{
    let mut indices: Vec<usize> = Vec::new();
    let mut i: usize = 0;
    while i < rows
        invariant
            i <= rows,
            indices@ == ascending(i as nat),
        decreases rows - i,
    {
        indices.push(i);
        assert(indices@ =~= ascending((i + 1) as nat));
        i += 1;
    }
    shuffle(&mut indices, source);
    proof {
        lemma_rearranged_ascending(indices@, rows as nat);
    }
    let ghost whole = indices@;
    indices.truncate(count);
    proof {
        assert(indices@ == whole.subrange(0, count as int));
        assert forall|r: usize| count == rows && r < rows implies indices@.contains(r) by {
            assert(indices@ =~= whole);
        }
    }
    indices
}

} // verus!
