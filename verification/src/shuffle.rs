//! Random initial arrangements of the cells.

use vstd::prelude::*;
use rand::rngs::StdRng;
use rand::seq::SliceRandom;
use rand::SeedableRng;
use crate::sort::{key_at, sorted_by};

verus! {

/// Calls `rand::random::<u64>()`, which draws from the thread-local
/// generator. Nothing is claimed of the value.
#[verifier::external_body]
fn random_seed() -> u64 {
    rand::random::<u64>()
}

/// The arrangement that `SliceRandom::shuffle` leaves in `cells` when it is
/// driven by `StdRng::seed_from_u64(seed)`. With the generator's algorithm
/// fixed by the linked version of `rand` (ChaCha12), the result depends on
/// the seed and the cells alone, on 32- and 64-bit targets alike.
pub uninterp spec fn seeded_permutation(seed: u64, cells: Seq<usize>) -> Seq<usize>;

/// Calls `SliceRandom::shuffle` with the generator `StdRng::seed_from_u64(seed)`.
/// Claimed: the result is `seeded_permutation(seed, cells)`, and it holds the
/// same cells, each as often as before (the shuffle is made of in-bounds
/// swaps). Which permutation that is, is not stated.
#[verifier::external_body]
fn seeded_shuffle(cells: &mut Vec<usize>, seed: u64)
    ensures
        final(cells)@ == seeded_permutation(seed, old(cells)@),
        final(cells)@.to_multiset() == old(cells)@.to_multiset(),
{
    cells.as_mut_slice().shuffle(&mut StdRng::seed_from_u64(seed));
}

/// The identity arrangement `0, 1, ..., n - 1`.
pub open spec fn identity(n: nat) -> Seq<usize> {
    Seq::new(n, |i: int| i as usize)
}

/// A random permutation of the cell ids `0..n`, reproducible when `seed` is
/// given (a fresh seed is drawn otherwise).
pub fn shuffled(n: usize, seed: Option<u64>) -> (v: Vec<usize>)
    ensures
        seed matches Some(s) ==> v@ == seeded_permutation(s, identity(n as nat)),
        seed is None ==> exists|s: u64| v@ == #[trigger] seeded_permutation(s, identity(n as nat)),
        v@.to_multiset() == identity(n as nat).to_multiset(),
        v@.len() == n,
        forall|i: int| 0 <= i < n ==> #[trigger] v@[i] < n,
        forall|i: int, j: int| 0 <= i < j < n ==> v@[i] != v@[j],
{
    let mut v: Vec<usize> = Vec::new();
    let mut i: usize = 0;
    while i < n
        invariant
            i <= n,
            v@ == identity(i as nat),
        decreases n - i,
    {
        v.push(i);
        i += 1;
        assert(v@ =~= identity(i as nat));
    }
    let s = match seed {
        Some(s) => s,
        None => random_seed(),
    };
    assert(v@ == identity(n as nat));
    seeded_shuffle(&mut v, s);
    assert(v@ == seeded_permutation(s, identity(n as nat)));
    proof {
        broadcast use vstd::seq_lib::group_to_multiset_ensures;
        let id = identity(n as nat);
        assert(v@.len() == n) by {
            assert(v@.to_multiset().len() == id.to_multiset().len());
        }
        crate::sort::lemma_multiset_contains(v@, id);
        assert forall|k: int| 0 <= k < n implies #[trigger] v@[k] < n by {
            assert(id.contains(v@[k]));
        }
        assert forall|a: int, b: int| 0 <= a < b < n implies v@[a] != v@[b] by {
            if v@[a] == v@[b] {
                lemma_two_copies(v@, a, b);
                id.lemma_multiset_has_no_duplicates();
                assert(id.to_multiset().count(v@[a]) <= 1);
            }
        }
    }
    v
}

/// A value that occurs at two positions is counted at least twice.
proof fn lemma_two_copies(s: Seq<usize>, a: int, b: int)
    requires
        0 <= a < b < s.len(),
        s[a] == s[b],
    ensures
        s.to_multiset().count(s[a]) >= 2,
{
    broadcast use vstd::seq_lib::group_to_multiset_ensures;
    broadcast use vstd::multiset::group_multiset_axioms;

    let x = s[a];
    let s1 = s.remove(b);
    assert(s1[a] == x);
    assert(s1.contains(x));
    assert(s1.to_multiset() == s.to_multiset().remove(s[b]));
    assert(s1.to_multiset().count(x) > 0);
}

/// Sorting a rearrangement of the cell ids `0..n` by index restores the
/// original image: every cell ends up at the slot given by its id.
pub proof fn lemma_index_sort_restores_image(keys: Seq<u64>, sorted: Seq<usize>, n: nat)
    requires
        n <= usize::MAX,
        keys.len() == n,
        forall|i: int| 0 <= i < n ==> #[trigger] keys[i] == i,
        sorted.to_multiset() == identity(n).to_multiset(),
        sorted_by(keys, sorted, 0, n as int),
    ensures
        sorted == identity(n),
{
    broadcast use vstd::seq_lib::group_to_multiset_ensures;
    let id = identity(n);
    assert(sorted.len() == n) by {
        assert(sorted.to_multiset().len() == id.to_multiset().len());
    }
    crate::sort::lemma_multiset_contains(sorted, id);
    assert(id.no_duplicates());
    id.lemma_multiset_has_no_duplicates();
    assert forall|k: int| 0 <= k < n implies #[trigger] sorted[k] < n by {
        assert(id.contains(sorted[k]));
    }
    // Distinct ids in non-decreasing order are strictly increasing.
    assert forall|a: int, b: int| 0 <= a < b < n implies #[trigger] sorted[a] < #[trigger] sorted[b] by {
        assert(key_at(keys, sorted, a) <= key_at(keys, sorted, b));
        if sorted[a] == sorted[b] {
            lemma_two_copies(sorted, a, b);
            assert(id.to_multiset().count(sorted[a]) <= 1);
        }
    }
    assert forall|k: int| 0 <= k < n implies #[trigger] sorted[k] == k by {
        lemma_increasing_bounds(sorted, n, k);
    }
    assert(sorted =~= id);
}

/// In a strictly increasing sequence of `n` values below `n`, position `k`
/// holds `k`.
proof fn lemma_increasing_bounds(s: Seq<usize>, n: nat, k: int)
    requires
        s.len() == n,
        0 <= k < n,
        forall|i: int| 0 <= i < n ==> #[trigger] s[i] < n,
        forall|a: int, b: int| 0 <= a < b < n ==> #[trigger] s[a] < #[trigger] s[b],
    ensures
        s[k] == k,
{
    lemma_increasing_lower(s, n, k);
    lemma_increasing_upper(s, n, k);
}

proof fn lemma_increasing_lower(s: Seq<usize>, n: nat, k: int)
    requires
        s.len() == n,
        0 <= k < n,
        forall|a: int, b: int| 0 <= a < b < n ==> #[trigger] s[a] < #[trigger] s[b],
    ensures
        s[k] >= k,
    decreases k,
{
    if k > 0 {
        lemma_increasing_lower(s, n, k - 1);
        assert(s[k - 1] < s[k]);
    }
}

proof fn lemma_increasing_upper(s: Seq<usize>, n: nat, k: int)
    requires
        s.len() == n,
        0 <= k < n,
        forall|i: int| 0 <= i < n ==> #[trigger] s[i] < n,
        forall|a: int, b: int| 0 <= a < b < n ==> #[trigger] s[a] < #[trigger] s[b],
    ensures
        s[k] + (n - 1 - k) <= n - 1,
    decreases n - k,
{
    if k < n - 1 {
        lemma_increasing_upper(s, n, k + 1);
        assert(s[k] < s[k + 1]);
    }
}

} // verus!
