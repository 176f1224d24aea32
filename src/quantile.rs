//! Split candidates from a weighted histogram: equal-weight rank thresholds,
//! the bins that answer them, their representatives without repeats, and
//! the bucket of a value among the resulting boundaries.
use vstd::prelude::*;
use vstd::arithmetic::div_mod::{lemma_fundamental_div_mod, lemma_hoist_over_denominator, lemma_div_is_ordered};
use vstd::arithmetic::mul::lemma_mul_inequality;
use crate::binner::{Binner, cum, edge, answers_rank, ascending_ranks};

verus! {

/// Threshold `i` (from 1) of `m` equal-weight thresholds over total weight
/// `w`: `i * w / (m + 1)`, rounded to the nearest whole number (halves up).
pub open spec fn rank_threshold(i: nat, w: nat, m: nat) -> nat {
    ((2 * i * w + m + 1) / (2 * (m + 1))) as nat
}

/// The `m` thresholds `rank_threshold(1..=m)`.
pub open spec fn rank_thresholds(w: nat, m: nat) -> Seq<u128> {
    Seq::new(m, |i: int| rank_threshold((i + 1) as nat, w, m) as u128)
}

/// The bin that answers rank `r` (it is unique, see `lemma_rank_bin_unique`).
pub open spec fn rank_bin(bins: Seq<u128>, r: nat) -> nat {
    choose|b: nat| answers_rank(bins, r, b)
}

/// `s` without consecutive repeats.
pub open spec fn dedup(s: Seq<i64>) -> Seq<i64>
    decreases s.len(),
{
    if s.len() == 0 {
        s
    } else {
        let p = dedup(s.drop_last());
        if p.len() > 0 && p.last() == s.last() {
            p
        } else {
            p.push(s.last())
        }
    }
}

/// The split boundaries that a histogram gives for the ranks: the
/// representative of each answering bin, without consecutive repeats.
pub open spec fn split_points(lo: int, hi: int, bins: Seq<u128>, ranks: Seq<u128>) -> Seq<i64> {
    dedup(Seq::new(ranks.len(), |a: int| edge(lo, hi, bins.len(), rank_bin(bins, ranks[a] as nat)) as i64))
}

pub open spec fn strictly_ascending_values(s: Seq<i64>) -> bool {
    forall|a: int, b: int| 0 <= a < b < s.len() ==> s[a] < s[b]
}

pub open spec fn ascending_values(s: Seq<i64>) -> bool {
    forall|a: int, b: int| 0 <= a < b < s.len() ==> s[a] <= s[b]
}

/// Number of boundaries strictly below `v`.
pub open spec fn count_below(s: Seq<i64>, v: int) -> nat
    decreases s.len(),
{
    if s.len() == 0 {
        0
    } else {
        count_below(s.drop_last(), v) + if s.last() < v { 1nat } else { 0nat }
    }
}

pub proof fn lemma_rank_bin_unique(bins: Seq<u128>, r: nat, b1: nat, b2: nat)
    requires
        answers_rank(bins, r, b1),
        answers_rank(bins, r, b2),
    ensures
        b1 == b2,
{
    if b1 < b2 {
        assert(cum(bins, b1 + 1) < r);
    } else if b2 < b1 {
        assert(cum(bins, b2 + 1) < r);
    }
}

proof fn lemma_rank_bin_ordered(bins: Seq<u128>, r1: nat, r2: nat, b1: nat, b2: nat)
    requires
        r1 <= r2,
        answers_rank(bins, r1, b1),
        answers_rank(bins, r2, b2),
    ensures
        b1 <= b2,
{
    if b2 < b1 {
        assert(cum(bins, b2 + 1) < r1);
    }
}

proof fn lemma_edge_ordered(lo: int, hi: int, nb: nat, b1: nat, b2: nat)
    requires
        lo <= hi,
        nb > 0,
        b1 <= b2,
    ensures
        edge(lo, hi, nb, b1) <= edge(lo, hi, nb, b2),
{
    lemma_mul_inequality(b1 as int, b2 as int, hi - lo);
    lemma_div_is_ordered(b1 * (hi - lo), b2 * (hi - lo), nb as int);
}

proof fn lemma_dedup_props(s: Seq<i64>)
    requires
        ascending_values(s),
    ensures
        strictly_ascending_values(dedup(s)),
        dedup(s).len() <= s.len(),
        s.len() > 0 ==> dedup(s).len() > 0 && dedup(s).last() == s.last(),
    decreases s.len(),
{
    if s.len() > 0 {
        let t = s.drop_last();
        assert(ascending_values(t));
        lemma_dedup_props(t);
        let p = dedup(t);
        if p.len() > 0 && p.last() == s.last() {
        } else {
            if p.len() > 0 {
                assert(p.last() == t.last());
                assert(t.last() <= s.last());
            }
            let q = p.push(s.last());
            assert forall|a: int, b: int| 0 <= a < b < q.len() implies q[a] < q[b] by {
                if b == q.len() - 1 && a < b {
                    if a < p.len() - 1 {
                        assert(p[a] < p.last());
                    }
                }
            }
        }
    }
}

proof fn lemma_threshold_bound(i: nat, w: nat, m: nat)
    requires
        1 <= i <= m,
    ensures
        rank_threshold(i, w, m) <= w,
{
    assert(2 * i * w + m + 1 < 2 * (m + 1) * (w + 1)) by (nonlinear_arith)
        requires
            i <= m,
    ;
    assert((2 * i * w + m + 1) / (2 * (m + 1)) < w + 1) by (nonlinear_arith)
        requires
            2 * i * w + m + 1 < 2 * (m + 1) * (w + 1),
            m + 1 > 0,
    ;
}

/// The `m` equal-weight rank thresholds over total weight `w`, ascending.
pub fn compute_rank_thresholds(w: u128, m: usize) -> (ranks: Vec<u128>)
    requires
        m <= u32::MAX,
    ensures
        ranks@ == rank_thresholds(w as nat, m as nat),
        ascending_ranks(ranks@),
{
    let d: u128 = (m as u128) + 1;
    let q = w / d;
    let r = w % d;
    proof {
        lemma_fundamental_div_mod(w as int, d as int);
    }
    let mut ranks: Vec<u128> = Vec::new();
    let mut k: usize = 0;
    while k < m
        invariant
            k <= m,
            m <= u32::MAX,
            d == m + 1,
            q == w / d,
            r == w % d,
            w == d * q + r,
            ranks@.len() == k,
            forall|a: int| 0 <= a < ranks@.len() ==> ranks@[a] == rank_threshold((a + 1) as nat, w as nat, m as nat),
        decreases m - k,
    {
        let ghost i: int = k + 1;
        proof {
            assert(i * q <= w) by (nonlinear_arith)
                requires
                    i < d,
                    w == d * q + r,
                    r >= 0,
                    q >= 0,
            ;
            assert(2 * i * r + d < 2 * d * d) by (nonlinear_arith)
                requires
                    i <= m,
                    0 <= r < d,
                    d == m + 1,
            ;
            assert(2 * d * d <= 2 * 0x1_0000_0000 * 0x1_0000_0000) by (nonlinear_arith)
                requires
                    d <= 0x1_0000_0000,
            ;
            lemma_hoist_over_denominator(2 * i * r + d, i * q, (2 * d) as nat);
            assert(2 * i * w + m + 1 == (2 * i * r + d) + (i * q) * (2 * d)) by (nonlinear_arith)
                requires
                    w == d * q + r,
                    d == m + 1,
            ;
            lemma_threshold_bound(i as nat, w as nat, m as nat);
        }
        let ii = k as u128 + 1;
        let t = ii * q + (2 * ii * r + d) / (2 * d);
        ranks.push(t);
        k = k + 1;
    }
    assert(ranks@ =~= rank_thresholds(w as nat, m as nat));
    proof {
        assert forall|a: int, b: int| 0 <= a < b < ranks@.len() implies ranks@[a] <= ranks@[b] by {
            assert(ranks@[a] == rank_threshold((a + 1) as nat, w as nat, m as nat));
            assert(ranks@[b] == rank_threshold((b + 1) as nat, w as nat, m as nat));
            assert(2 * (a + 1) * w <= 2 * (b + 1) * w) by (nonlinear_arith)
                requires
                    a < b,
                    w >= 0,
            ;
            lemma_div_is_ordered(2 * (a + 1) * w + m + 1, 2 * (b + 1) * w + m + 1, 2 * (m + 1));
        }
    }
    ranks
}

/// Split boundaries of a filled histogram for `ranks`: the representative of
/// the bin that answers each rank, with consecutive repeats dropped. They are
/// strictly ascending and at most as many as the ranks.
pub fn compute_split_points(binner: &Binner, ranks: &Vec<u128>) -> (s: Vec<i64>)
    requires
        binner.wf(),
        ascending_ranks(ranks@),
    ensures
        s@ == split_points(binner.lo(), binner.hi(), binner@, ranks@),
        strictly_ascending_values(s@),
        s@.len() <= ranks@.len(),
{
    let bins = binner.rank_iter(ranks);
    let ghost lo = binner.lo();
    let ghost hi = binner.hi();
    let ghost nb = binner@.len();
    let ghost reps = Seq::new(ranks@.len(), |a: int| edge(lo, hi, nb, rank_bin(binner@, ranks@[a] as nat)) as i64);
    proof {
        assert forall|a: int| 0 <= a < bins@.len() implies #[trigger] bins@[a] == rank_bin(binner@, ranks@[a] as nat) by {
            let c = rank_bin(binner@, ranks@[a] as nat);
            assert(answers_rank(binner@, ranks@[a] as nat, bins@[a] as nat));
            lemma_rank_bin_unique(binner@, ranks@[a] as nat, c, bins@[a] as nat);
        }
        assert forall|a: int, b: int| 0 <= a < b < reps.len() implies reps[a] <= reps[b] by {
            assert(ranks@[a] <= ranks@[b]);
            lemma_rank_bin_ordered(binner@, ranks@[a] as nat, ranks@[b] as nat, bins@[a] as nat, bins@[b] as nat);
            lemma_edge_ordered(lo, hi, nb, bins@[a] as nat, bins@[b] as nat);
            lemma_edge_bounds(lo, hi, nb, bins@[a] as nat);
            lemma_edge_bounds(lo, hi, nb, bins@[b] as nat);
        }
    }
    let mut s: Vec<i64> = Vec::new();
    let mut j: usize = 0;
    while j < bins.len()
        invariant
            binner.wf(),
            lo == binner.lo(),
            hi == binner.hi(),
            nb == binner@.len(),
            bins@.len() == ranks@.len(),
            reps == Seq::new(ranks@.len(), |a: int| edge(lo, hi, nb, rank_bin(binner@, ranks@[a] as nat)) as i64),
            j <= bins@.len(),
            forall|a: int| 0 <= a < bins@.len() ==> #[trigger] bins@[a] == rank_bin(binner@, ranks@[a] as nat),
            forall|a: int| 0 <= a < bins@.len() ==> #[trigger] bins@[a] < nb,
            s@ == dedup(reps.take(j as int)),
        decreases bins@.len() - j,
    {
        let v = binner.bin_representative(bins[j]);
        proof {
            assert(reps.take(j + 1).drop_last() =~= reps.take(j as int));
            assert(reps[j as int] == edge(lo, hi, nb, rank_bin(binner@, ranks@[j as int] as nat)) as i64);
            assert(bins@[j as int] == rank_bin(binner@, ranks@[j as int] as nat));
            lemma_edge_bounds(lo, hi, nb, bins@[j as int] as nat);
            assert(v == reps[j as int]);
        }
        if s.len() == 0 || s[s.len() - 1] != v {
            s.push(v);
        }
        j = j + 1;
    }
    proof {
        assert(reps.take(bins@.len() as int) =~= reps);
        lemma_dedup_props(reps);
    }
    s
}

proof fn lemma_edge_bounds(lo: int, hi: int, nb: nat, b: nat)
    requires
        lo <= hi,
        b < nb,
        i64::MIN <= lo,
        hi <= i64::MAX,
    ensures
        lo <= edge(lo, hi, nb, b) <= hi,
{
    assert(b * (hi - lo) <= nb * (hi - lo)) by (nonlinear_arith)
        requires
            b < nb,
            lo <= hi,
    ;
    assert(0 <= b * (hi - lo) / (nb as int) <= hi - lo) by (nonlinear_arith)
        requires
            b * (hi - lo) <= nb * (hi - lo),
            0 <= b * (hi - lo),
            nb > 0,
    ;
}

proof fn lemma_count_below_ascending(s: Seq<i64>, v: int, j: nat)
    requires
        strictly_ascending_values(s),
        j <= s.len(),
        forall|a: int| 0 <= a < j ==> s[a] < v,
        forall|a: int| j <= a < s.len() ==> s[a] >= v,
    ensures
        count_below(s, v) == j,
    decreases s.len(),
{
    if s.len() > 0 {
        if j == s.len() {
            lemma_count_below_ascending(s.drop_last(), v, (j - 1) as nat);
        } else {
            lemma_count_below_ascending(s.drop_last(), v, j);
        }
    }
}

proof fn lemma_count_below_all(s: Seq<i64>, v: int)
    requires
        forall|a: int| 0 <= a < s.len() ==> s[a] < v,
    ensures
        count_below(s, v) == s.len(),
    decreases s.len(),
{
    if s.len() > 0 {
        lemma_count_below_all(s.drop_last(), v);
    }
}

pub proof fn lemma_count_below_bound(s: Seq<i64>, v: int)
    ensures
        count_below(s, v) <= s.len(),
    decreases s.len(),
{
    if s.len() > 0 {
        lemma_count_below_bound(s.drop_last(), v);
    }
}

/// Among strictly ascending boundaries, a value's bucket is at most `k`
/// exactly when the value is at most boundary `k`.
pub proof fn lemma_bucket_le(s: Seq<i64>, v: int, k: int)
    requires
        strictly_ascending_values(s),
        0 <= k < s.len(),
    ensures
        count_below(s, v) <= k <==> v <= s[k],
    decreases s.len(),
{
    let t = s.drop_last();
    assert(strictly_ascending_values(t));
    if s.last() < v {
        assert forall|a: int| 0 <= a < s.len() implies s[a] < v by {
            if a < s.len() - 1 {
                assert(s[a] < s.last());
            }
        }
        lemma_count_below_all(s, v);
    } else if k == s.len() - 1 {
        lemma_count_below_bound(t, v);
    } else {
        lemma_bucket_le(t, v, k);
        assert(t[k] == s[k]);
    }
}

/// Bucket of `v` among strictly ascending boundaries: how many of them lie
/// strictly below `v`. Binary search.
pub fn bucket_of(s: &Vec<i64>, v: i64) -> (k: usize)
    requires
        strictly_ascending_values(s@),
    ensures
        k == count_below(s@, v as int),
        k <= s@.len(),
        forall|a: int| 0 <= a < k ==> s@[a] < v,
        forall|a: int| k <= a < s@.len() ==> s@[a] >= v,
{
    let mut lo: usize = 0;
    let mut hi: usize = s.len();
    while lo < hi
        invariant
            0 <= lo <= hi <= s@.len(),
            strictly_ascending_values(s@),
            forall|a: int| 0 <= a < lo ==> s@[a] < v,
            forall|a: int| hi <= a < s@.len() ==> s@[a] >= v,
        decreases hi - lo,
    {
        let mid = lo + (hi - lo) / 2;
        if s[mid] < v {
            lo = mid + 1;
        } else {
            hi = mid;
        }
    }
    proof {
        lemma_count_below_ascending(s@, v as int, lo as nat);
    }
    lo
}

} // verus!
