//! The source of randomness: thin trusted wrappers around the `rand`
//! crate, and verified helpers that build the shuffled sequences the
//! generator consumes.

use rand::seq::SliceRandom;
use vstd::prelude::*;

verus! {

/// Relies on rand's `SliceRandom::shuffle`: it reorders the elements of
/// the slice in place, so the multiset of elements is unchanged.
#[verifier::external_body]
pub(crate) fn shuffle_vec<T>(v: &mut Vec<T>)
    ensures
        final(v)@.to_multiset() == old(v)@.to_multiset(),
{
    v.shuffle(&mut rand::rng());
}

/// Relies on rand's `random_range`: it returns a uniformly random value
/// of the given range, and panics only on an empty range.
#[verifier::external_body]
pub(crate) fn random_below(n: usize) -> (r: usize)
    requires
        n > 0,
    ensures
        r < n,
{
    rand::random_range(0..n)
}

/// The indices `0..n` in a random order: a permutation, so every index
/// below `n` appears exactly once.
pub(crate) fn shuffled_indices(n: usize) -> (v: Vec<usize>)
    ensures
        v@.len() == n,
        forall|k: int| 0 <= k < n ==> #[trigger] v@[k] < n,
        v@.no_duplicates(),
        forall|d: usize| d < n ==> #[trigger] v@.contains(d),
{
    let mut v: Vec<usize> = Vec::new();
    let mut i: usize = 0;
    while i < n
        invariant
            i <= n,
            v@.len() == i,
            forall|k: int| 0 <= k < i ==> #[trigger] v@[k] == k,
        decreases n - i,
    {
        v.push(i);
        i += 1;
    }
    let ghost base = v@;
    shuffle_vec(&mut v);
    proof {
        broadcast use vstd::seq_lib::group_to_multiset_ensures;

        assert(v@.to_multiset().len() == base.to_multiset().len());
        assert(base.no_duplicates());
        base.lemma_multiset_has_no_duplicates();
        assert forall|k: int| 0 <= k < n implies #[trigger] v@[k] < n by {
            assert(v@.contains(v@[k]));
            assert(v@.to_multiset().count(v@[k]) > 0);
            assert(base.to_multiset().count(v@[k]) > 0);
            assert(base.contains(v@[k]));
        }
        assert forall|x: usize| v@.to_multiset().contains(x) implies v@.to_multiset().count(x)
            == 1 by {
            assert(base.to_multiset().count(x) > 0);
        }
        v@.lemma_multiset_has_no_duplicates_conv();
        assert forall|d: usize| d < n implies #[trigger] v@.contains(d) by {
            assert(base[d as int] == d);
            assert(base.contains(d));
            assert(base.to_multiset().count(d) > 0);
            assert(v@.to_multiset().count(d) > 0);
        }
    }
    v
}

/// The digits 1..=9 in a random order: a permutation, so every digit
/// appears exactly once.
pub(crate) fn shuffled_digits() -> (v: Vec<i8>)
    ensures
        v@.len() == 9,
        forall|k: int| 0 <= k < 9 ==> 1 <= #[trigger] v@[k] <= 9,
        v@.no_duplicates(),
        forall|d: i8| 1 <= d <= 9 ==> #[trigger] v@.contains(d),
{
    let mut v: Vec<i8> = Vec::new();
    let mut d: i8 = 1;
    while d <= 9
        invariant
            1 <= d <= 10,
            v@.len() == d - 1,
            forall|k: int| 0 <= k < d - 1 ==> #[trigger] v@[k] == k + 1,
        decreases 10 - d,
    {
        v.push(d);
        d += 1;
    }
    let ghost base = v@;
    shuffle_vec(&mut v);
    proof {
        broadcast use vstd::seq_lib::group_to_multiset_ensures;

        assert(v@.to_multiset().len() == base.to_multiset().len());
        assert(base.no_duplicates());
        base.lemma_multiset_has_no_duplicates();
        assert forall|k: int| 0 <= k < 9 implies 1 <= #[trigger] v@[k] <= 9 by {
            assert(v@.contains(v@[k]));
            assert(v@.to_multiset().count(v@[k]) > 0);
            assert(base.to_multiset().count(v@[k]) > 0);
            assert(base.contains(v@[k]));
        }
        assert forall|x: i8| v@.to_multiset().contains(x) implies v@.to_multiset().count(x)
            == 1 by {
            assert(base.to_multiset().count(x) > 0);
        }
        v@.lemma_multiset_has_no_duplicates_conv();
        assert forall|d: i8| 1 <= d <= 9 implies #[trigger] v@.contains(d) by {
            assert(base[d - 1] == d);
            assert(base.contains(d));
            assert(base.to_multiset().count(d) > 0);
            assert(v@.to_multiset().count(d) > 0);
        }
    }
    v
}

} // verus!
