//! Row bagging (with replacement) and feature subsampling (reservoir, without
//! replacement), both seeded and both returning ascending index lists.
use vstd::prelude::*;
use rand::rngs::SmallRng;
use rand::{Rng, SeedableRng};

verus! {

#[verifier::external_type_specification]
#[verifier::external_body]
pub struct ExSmallRng(SmallRng);

/// The sequence is in ascending order (repeats allowed).
pub open spec fn ascending(s: Seq<usize>) -> bool {
    forall|a: int, b: int| 0 <= a < b < s.len() ==> s[a] <= s[b]
}

/// The sequence is in strictly ascending order.
pub open spec fn strictly_ascending(s: Seq<usize>) -> bool {
    forall|a: int, b: int| 0 <= a < b < s.len() ==> s[a] < s[b]
}

/// Every element is below `n`.
pub open spec fn all_below(s: Seq<usize>, n: nat) -> bool {
    forall|a: int| 0 <= a < s.len() ==> s[a] < n
}

/// The sequence `0, 1, ..., n - 1`.
pub open spec fn identity_seq(n: nat) -> Seq<usize> {
    Seq::new(n, |i: int| i as usize)
}

/// Relies on rand's `SeedableRng::seed_from_u64` for `SmallRng`: a generator
/// whose stream is fixed by `seed`. Nothing is stated of the stream.
#[verifier::external_body]
fn seeded_rng(seed: u64) -> SmallRng {
    SmallRng::seed_from_u64(seed)
}

/// Relies on rand's `Rng::gen_range(low, high)`: a value in `[low, high)`; it
/// panics when `low >= high`, which `requires` leaves out.
#[verifier::external_body]
fn gen_below(rng: &mut SmallRng, n: usize) -> (r: usize)
    requires
        n > 0,
    ensures
        r < n,
{
    rng.gen_range(0, n)
}

/// Relies on `slice::sort_unstable`: the same elements, in ascending order.
#[verifier::external_body]
fn sort_indices(v: &mut Vec<usize>)
    ensures
        final(v)@.to_multiset() == old(v)@.to_multiset(),
        ascending(final(v)@),
{
    v.sort_unstable();
}

proof fn lemma_sorted_keeps_bound(old_s: Seq<usize>, new_s: Seq<usize>, n: nat)
    requires
        all_below(old_s, n),
        new_s.to_multiset() == old_s.to_multiset(),
    ensures
        all_below(new_s, n),
        new_s.len() == old_s.len(),
{
    old_s.to_multiset_ensures();
    new_s.to_multiset_ensures();
    assert forall|a: int| 0 <= a < new_s.len() implies new_s[a] < n by {
        assert(new_s.contains(new_s[a]));
        assert(new_s.to_multiset().count(new_s[a]) > 0);
        assert(old_s.contains(new_s[a]));
        let b = choose|b: int| 0 <= b < old_s.len() && old_s[b] == new_s[a];
        assert(old_s[b] < n);
    }
}

/// Bagging: `k` row indices drawn uniformly from `0..n` with replacement,
/// then sorted ascending. Repeats are expected.
pub fn sample(n: usize, k: usize, seed: u64) -> (v: Vec<usize>)
    requires
        n > 0 || k == 0,
    ensures
        v@.len() == k,
        ascending(v@),
        all_below(v@, n as nat),
{
    let mut rng = seeded_rng(seed);
    let mut v: Vec<usize> = Vec::new();
    let mut i: usize = 0;
    while i < k
        invariant
            i <= k,
            n > 0 || k == 0,
            v@.len() == i,
            all_below(v@, n as nat),
        decreases k - i,
    {
        let x = gen_below(&mut rng, n);
        v.push(x);
        i = i + 1;
    }
    let ghost drawn = v@;
    sort_indices(&mut v);
    proof {
        lemma_sorted_keeps_bound(drawn, v@, n as nat);
    }
    v
}

/// The reservoir after items `0..i`: the first `k` items fill it; item
/// `i >= k` replaces slot `draws[i - k]` when that slot is below `k`.
pub open spec fn reservoir(k: nat, draws: Seq<usize>, i: nat) -> Seq<usize>
    decreases i,
{
    if i == 0 {
        Seq::empty()
    } else {
        let p = reservoir(k, draws, (i - 1) as nat);
        let j = (i - 1) as nat;
        if j < k {
            p.push(j as usize)
        } else if draws[j - k] < k {
            p.update(draws[j - k] as int, j as usize)
        } else {
            p
        }
    }
}

/// Reservoir sampling over items `0..n` with the given draws (`draws[t]` is
/// the slot drawn for item `k + t`), then sorted ascending.
pub fn reservoir_from_draws(n: usize, k: usize, draws: &Vec<usize>) -> (v: Vec<usize>)
    requires
        k <= n,
        draws@.len() == n - k,
    ensures
        v@.to_multiset() == reservoir(k as nat, draws@, n as nat).to_multiset(),
        v@.len() == k,
        strictly_ascending(v@),
        all_below(v@, n as nat),
{
    let mut v: Vec<usize> = Vec::new();
    let mut i: usize = 0;
    while i < n
        invariant
            i <= n,
            k <= n,
            draws@.len() == n - k,
            v@ == reservoir(k as nat, draws@, i as nat),
            v@.len() == if i < k { i } else { k },
            all_below(v@, i as nat),
            v@.no_duplicates(),
        decreases n - i,
    {
        if i < k {
            v.push(i);
        } else {
            let r = draws[i - k];
            if r < k {
                v[r] = i;
            }
        }
        i = i + 1;
    }
    let ghost drawn = v@;
    sort_indices(&mut v);
    proof {
        lemma_sorted_keeps_bound(drawn, v@, n as nat);
        drawn.lemma_multiset_has_no_duplicates();
        v@.lemma_multiset_has_no_duplicates_conv();
    }
    v
}

/// Reservoir sampling: `k` distinct indices of `0..n` in one pass over a
/// single random stream, then sorted ascending.
pub fn reservoir_sample(n: usize, k: usize, seed: u64) -> (v: Vec<usize>)
    requires
        k <= n,
    ensures
        v@.len() == k,
        strictly_ascending(v@),
        all_below(v@, n as nat),
{
    let mut rng = seeded_rng(seed);
    let mut draws: Vec<usize> = Vec::new();
    let mut i: usize = k;
    while i < n
        invariant
            k <= i <= n,
            draws@.len() == i - k,
        decreases n - i,
    {
        draws.push(gen_below(&mut rng, i + 1));
        i = i + 1;
    }
    reservoir_from_draws(n, k, &draws)
}

/// Rows of one round: every row in order when `k == n`, without drawing;
/// otherwise a bagging draw of `k` rows.
pub fn select_examples(n: usize, k: usize, seed: u64) -> (v: Vec<usize>)
    requires
        k <= n,
    ensures
        v@.len() == k,
        ascending(v@),
        all_below(v@, n as nat),
        k == n ==> v@ == identity_seq(n as nat),
{
    if k == n {
        let mut v: Vec<usize> = Vec::new();
        let mut i: usize = 0;
        while i < n
            invariant
                i <= n,
                v@ == identity_seq(i as nat),
            decreases n - i,
        {
            v.push(i);
            i = i + 1;
            assert(v@ =~= identity_seq(i as nat));
        }
        v
    } else {
        sample(n, k, seed)
    }
}

} // verus!
