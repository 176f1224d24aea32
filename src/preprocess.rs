//! The three per-feature strategies. Each takes the feature's values (and the
//! gradients) of the sampled rows, in sampling order, and allocates its
//! bitsets in the arena.
use vstd::prelude::*;
use crate::store::{BitBlockStore, SliceRange, blocks_for};
use crate::data::{FIXED_ONE, valid_category, category_of};
use crate::bitsets::{construct_bitvecs, transform_bitvecs_to_ord, pairwise_disjoint, all_held, any_upto, outside_all};
use crate::binner::{Binner, NBINS, hist, cum};
use crate::quantile::{compute_rank_thresholds, compute_split_points, bucket_of, rank_thresholds, split_points, strictly_ascending_values, count_below};

verus! {

/// Weight of a row in the numeric histogram: the gradient's magnitude plus
/// the smallest unit, so that every row counts.
pub open spec fn grad_weight(g: i64) -> u128 {
    (if g < 0 { -g } else { g as int } + 1) as u128
}

/// The row weights of gradients `gs`.
pub open spec fn grad_weights(gs: Seq<i64>) -> Seq<u128> {
    Seq::new(gs.len(), |i: int| grad_weight(gs[i]))
}

/// Histogram of a numeric feature: each value weighted by its row's gradient.
pub open spec fn num_hist(vals: Seq<i64>, grads: Seq<i64>, lims: (i64, i64)) -> Seq<u128> {
    hist(lims.0 as int, lims.1 as int, NBINS as nat, vals, grad_weights(grads))
}

/// Split values of a numeric feature: `m` equal-weight quantiles of its
/// gradient-weighted histogram, as bin representatives without repeats.
pub open spec fn num_splits(vals: Seq<i64>, grads: Seq<i64>, lims: (i64, i64), m: nat) -> Seq<i64> {
    let h = num_hist(vals, grads, lims);
    split_points(lims.0 as int, lims.1 as int, h, rank_thresholds(cum(h, h.len()), m))
}

/// Category of each row.
pub open spec fn cat_seq(vals: Seq<i64>) -> Seq<usize> {
    Seq::new(vals.len(), |i: int| category_of(vals[i]) as usize)
}

/// Bucket of each row of a numeric feature: how many split values lie below
/// its value.
pub open spec fn num_buckets(vals: Seq<i64>, splits: Seq<i64>) -> Seq<usize> {
    Seq::new(vals.len(), |i: int| count_below(splits, vals[i] as int) as usize)
}

/// Super-category of each row.
pub open spec fn row_supers(cats: Seq<usize>, supers: Seq<usize>) -> Seq<usize> {
    Seq::new(cats.len(), |i: int| supers[cats[i] as int])
}

/// Number of rows in category `c`.
pub open spec fn cat_count(cats: Seq<usize>, c: nat) -> nat
    decreases cats.len(),
{
    if cats.len() == 0 {
        0
    } else {
        cat_count(cats.drop_last(), c) + if cats.last() == c { 1nat } else { 0nat }
    }
}

/// Sum over the rows of category `c` of how far their gradient lies above `lo`.
pub open spec fn cat_offset_sum(cats: Seq<usize>, grads: Seq<i64>, lo: int, c: nat) -> int
    decreases cats.len(),
{
    if cats.len() == 0 || grads.len() == 0 {
        0
    } else {
        cat_offset_sum(cats.drop_last(), grads.drop_last(), lo, c) + if cats.last() == c {
            grads.last() - lo
        } else {
            0
        }
    }
}

/// Mean gradient of category `c`, rounded down; 0 for a category without rows.
pub open spec fn cat_mean(cats: Seq<usize>, grads: Seq<i64>, lo: int, c: nat) -> i64 {
    if cat_count(cats, c) == 0 {
        0
    } else {
        (lo + cat_offset_sum(cats, grads, lo, c) / (cat_count(cats, c) as int)) as i64
    }
}

/// Mean gradient of each category `0..card`.
pub open spec fn cat_means(cats: Seq<usize>, grads: Seq<i64>, lo: int, card: nat) -> Seq<i64> {
    Seq::new(card, |c: int| cat_mean(cats, grads, lo, c as nat))
}

/// Row count of each category `0..card`, as histogram weights.
pub open spec fn cat_counts(cats: Seq<usize>, card: nat) -> Seq<u128> {
    Seq::new(card, |c: int| cat_count(cats, c as nat) as u128)
}

/// Histogram of category means over the gradient range, weighted by counts.
pub open spec fn cat_hist(cats: Seq<usize>, grads: Seq<i64>, card: nat, glims: (i64, i64)) -> Seq<u128> {
    hist(glims.0 as int, glims.1 as int, NBINS as nat, cat_means(cats, grads, glims.0 as int, card), cat_counts(cats, card))
}

/// Super-category boundaries: `m` equal-weight quantiles of the category means.
pub open spec fn cat_bounds(cats: Seq<usize>, grads: Seq<i64>, card: nat, glims: (i64, i64), m: nat) -> Seq<i64> {
    let h = cat_hist(cats, grads, card, glims);
    split_points(glims.0 as int, glims.1 as int, h, rank_thresholds(cum(h, h.len()), m))
}

/// Super-category of each category: how many boundaries lie below its mean.
pub open spec fn super_cats(cats: Seq<usize>, grads: Seq<i64>, card: nat, glims: (i64, i64), m: nat) -> Seq<usize> {
    Seq::new(card, |c: int| count_below(cat_bounds(cats, grads, card, glims, m), cat_mean(cats, grads, glims.0 as int, c as nat) as int) as usize)
}

/// What a strategy leaves in the arena: `rs` are fresh, disjoint ranges of
/// `nexamples` bits each, appended after everything that was there, and the
/// earlier blocks are unchanged.
pub open spec fn fresh_ranges(s0: &BitBlockStore, s1: &BitBlockStore, rs: Seq<SliceRange>, nexamples: nat) -> bool {
    &&& s1@.len() >= s0@.len()
    &&& s1@.subrange(0, s0@.len() as int) == s0@
    &&& all_held(s1, rs, blocks_for(nexamples))
    &&& pairwise_disjoint(rs)
    &&& forall|a: int| 0 <= a < rs.len() ==> #[trigger] rs[a].start >= s0@.len()
}

/// Bits of `rs[k]` hold, for each row, whether its bucket is at most `k`.
pub open spec fn ordered_bits(s: &BitBlockStore, rs: Seq<SliceRange>, buckets: Seq<usize>) -> bool {
    forall|k: int, i: nat| 0 <= k < rs.len() && i < rs[k].nbits() ==> #[trigger] s.bit(rs[k], i) == (i < buckets.len() && buckets[i as int] <= k)
}

/// Bits of `rs[k]` hold, for each row, whether its bucket is `k`.
pub open spec fn one_hot_bits(s: &BitBlockStore, rs: Seq<SliceRange>, buckets: Seq<usize>) -> bool {
    forall|k: int, i: nat| 0 <= k < rs.len() && i < rs[k].nbits() ==> #[trigger] s.bit(rs[k], i) == (i < buckets.len() && buckets[i as int] == k)
}

/// One-hot bitsets for buckets, then the prefix-or sweep.
fn ordered_bitvecs(store: &mut BitBlockStore, card: usize, buckets: &Vec<usize>) -> (rs: Vec<SliceRange>)
    ensures
        rs@.len() == card,
        fresh_ranges(old(store), final(store), rs@, buckets@.len()),
        ordered_bits(final(store), rs@, buckets@),
{
    let n = buckets.len();
    let rs = construct_bitvecs(store, n, card, buckets);
    let ghost s1 = *store;
    transform_bitvecs_to_ord(store, &rs);
    proof {
        assert forall|k: int, i: nat| 0 <= k < rs@.len() && i < rs@[k].nbits() implies #[trigger] store.bit(rs@[k], i) == (i < n && buckets@[i as int] <= k) by {
            if i < n && buckets@[i as int] <= k {
                let j = buckets@[i as int] as int;
                assert(s1.bit(rs@[j], i));
            }
            if any_upto(&s1, rs@, k, i) {
                let j = choose|j: int| 0 <= j <= k && #[trigger] s1.bit(rs@[j], i);
                assert(s1.bit(rs@[j], i));
            }
        }
    }
    proof {
        let base = old(store)@.len();
        assert forall|a: int| 0 <= a < base implies store@.subrange(0, base as int)[a] == old(store)@[a] by {
            assert(outside_all(a, rs@));
            assert(s1@.subrange(0, base as int)[a] == old(store)@[a]);
        }
        assert(store@.subrange(0, base as int) =~= old(store)@);
    }
    rs
}

/// Low-cardinality categorical feature: one bitset per category `0..card`,
/// bit `i` set when row `i` has that category.
pub fn preprocess_locard_cat(store: &mut BitBlockStore, vals: &Vec<i64>, card: usize) -> (rs: Vec<SliceRange>)
    requires
        forall|i: int| 0 <= i < vals@.len() ==> valid_category(#[trigger] vals@[i]) && category_of(vals@[i]) < card,
    ensures
        rs@.len() == card,
        fresh_ranges(old(store), final(store), rs@, vals@.len()),
        one_hot_bits(final(store), rs@, cat_seq(vals@)),
{
    let cats = categories(vals);
    let rs = construct_bitvecs(store, vals.len(), card, &cats);
    rs
}

/// Category of each row of a categorical feature.
fn categories(vals: &Vec<i64>) -> (cats: Vec<usize>)
    requires
        forall|i: int| 0 <= i < vals@.len() ==> valid_category(#[trigger] vals@[i]),
    ensures
        cats@ == cat_seq(vals@),
{
    let mut cats: Vec<usize> = Vec::new();
    let mut i: usize = 0;
    while i < vals.len()
        invariant
            i <= vals@.len(),
            forall|a: int| 0 <= a < vals@.len() ==> valid_category(#[trigger] vals@[a]),
            cats@ == cat_seq(vals@).take(i as int),
        decreases vals@.len() - i,
    {
        let v = vals[i];
        cats.push(((v as u64) / (FIXED_ONE as u64)) as usize);
        i = i + 1;
        assert(cats@ =~= cat_seq(vals@).take(i as int));
    }
    assert(cat_seq(vals@).take(vals@.len() as int) =~= cat_seq(vals@));
    cats
}

/// Numerical feature: split values are `m` equal-weight quantiles of the
/// values weighted by gradient magnitude; bitset `k` marks the rows whose
/// value is at most split value `k`.
pub fn preprocess_num(store: &mut BitBlockStore, vals: &Vec<i64>, grads: &Vec<i64>, lims: (i64, i64), m: usize) -> (res: (Vec<SliceRange>, Vec<i64>))
    requires
        vals@.len() == grads@.len(),
        lims.0 <= lims.1,
        m <= u32::MAX,
    ensures
        res.1@ == num_splits(vals@, grads@, lims, m as nat),
        strictly_ascending_values(res.1@),
        res.1@.len() <= m,
        res.0@.len() == res.1@.len(),
        fresh_ranges(old(store), final(store), res.0@, vals@.len()),
        ordered_bits(final(store), res.0@, num_buckets(vals@, res.1@)),
{
    let n = vals.len();
    let ghost ws = grad_weights(grads@);
    let mut binner = Binner::new(NBINS, lims);
    let mut total: u128 = 0;
    let mut i: usize = 0;
    while i < n
        invariant
            i <= n,
            n == vals@.len(),
            n == grads@.len(),
            ws == grad_weights(grads@),
            binner.wf(),
            binner.lo() == lims.0,
            binner.hi() == lims.1,
            binner@.len() == NBINS,
            binner@ == hist(lims.0 as int, lims.1 as int, NBINS as nat, vals@.take(i as int), ws.take(i as int)),
            total == binner.total(),
            total <= i * 0x8000_0000_0000_0001,
        decreases n - i,
    {
        let g = grads[i];
        let a: u128 = if g < 0 {
            (0i128 - g as i128) as u128
        } else {
            g as u128
        };
        let w = a + 1;
        proof {
            assert(w == grad_weight(g));
            assert(total + w <= (i + 1) * 0x8000_0000_0000_0001) by (nonlinear_arith)
                requires
                    total <= i * 0x8000_0000_0000_0001,
                    w <= 0x8000_0000_0000_0001,
            ;
            assert((i + 1) * 0x8000_0000_0000_0001 <= 0x1_0000_0000_0000_0000 * 0x8000_0000_0000_0001) by (nonlinear_arith)
                requires
                    i < 0x1_0000_0000_0000_0000,
            ;
        }
        binner.insert(vals[i], w);
        total = total + w;
        proof {
            assert(vals@.take(i + 1).drop_last() =~= vals@.take(i as int));
            assert(ws.take(i + 1).drop_last() =~= ws.take(i as int));
            assert(ws.take(i + 1).last() == w);
            assert(vals@.take(i + 1).last() == vals@[i as int]);
        }
        i = i + 1;
    }
    proof {
        assert(vals@.take(n as int) =~= vals@);
        assert(ws.take(n as int) =~= ws);
    }
    let ranks = compute_rank_thresholds(total, m);
    let splits = compute_split_points(&binner, &ranks);
    let mut buckets: Vec<usize> = Vec::new();
    let mut j: usize = 0;
    while j < n
        invariant
            j <= n,
            n == vals@.len(),
            strictly_ascending_values(splits@),
            buckets@ == num_buckets(vals@, splits@).take(j as int),
        decreases n - j,
    {
        let b = bucket_of(&splits, vals[j]);
        buckets.push(b);
        j = j + 1;
        assert(buckets@ =~= num_buckets(vals@, splits@).take(j as int));
    }
    assert(num_buckets(vals@, splits@).take(n as int) =~= num_buckets(vals@, splits@));
    let rs = ordered_bitvecs(store, splits.len(), &buckets);
    (rs, splits)
}

/// High-cardinality categorical feature: the categories are merged into
/// super-categories by quantiles of their mean gradient (weighted by row
/// count), ordered by mean; bitset `k` marks the rows whose category's
/// super-category is at most `k`.
pub fn preprocess_hicard_cat(store: &mut BitBlockStore, vals: &Vec<i64>, grads: &Vec<i64>, card: usize, glims: (i64, i64), m: usize) -> (res: (Vec<SliceRange>, Vec<usize>, Vec<i64>))
    requires
        vals@.len() == grads@.len(),
        card <= u32::MAX,
        m <= u32::MAX,
        glims.0 <= glims.1,
        forall|i: int| 0 <= i < vals@.len() ==> valid_category(#[trigger] vals@[i]) && category_of(vals@[i]) < card,
        forall|i: int| 0 <= i < grads@.len() ==> glims.0 <= #[trigger] grads@[i] <= glims.1,
    ensures
        res.2@ == cat_bounds(cat_seq(vals@), grads@, card as nat, glims, m as nat),
        strictly_ascending_values(res.2@),
        res.2@.len() <= m,
        res.1@ == super_cats(cat_seq(vals@), grads@, card as nat, glims, m as nat),
        res.0@.len() == res.2@.len(),
        fresh_ranges(old(store), final(store), res.0@, vals@.len()),
        ordered_bits(final(store), res.0@, row_supers(cat_seq(vals@), res.1@)),
{
    let n = vals.len();
    let lo = glims.0;
    let cats = categories(vals);
    let (counts, sums) = category_sums(&cats, grads, card, glims);
    let means = category_means(&counts, &sums, glims);
    let ghost cs = cat_seq(vals@);
    let ghost mseq = cat_means(cs, grads@, lo as int, card as nat);
    let ghost cseq = cat_counts(cs, card as nat);
    proof {
        assert(means@ =~= mseq);
    }
    let mut binner = Binner::new(NBINS, glims);
    let mut total: u128 = 0;
    let mut c: usize = 0;
    while c < card
        invariant
            c <= card,
            card <= u32::MAX,
            means@ == mseq,
            counts@.len() == card,
            forall|a: int| 0 <= a < card ==> #[trigger] counts@[a] == cseq[a] && counts@[a] <= n,
            n < 0x1_0000_0000_0000_0000,
            mseq.len() == card,
            cseq.len() == card,
            binner.wf(),
            binner.lo() == glims.0,
            binner.hi() == glims.1,
            binner@.len() == NBINS,
            binner@ == hist(glims.0 as int, glims.1 as int, NBINS as nat, mseq.take(c as int), cseq.take(c as int)),
            total == binner.total(),
            total <= c * 0x1_0000_0000_0000_0000,
        decreases card - c,
    {
        let w = counts[c];
        proof {
            assert(total + w <= (c + 1) * 0x1_0000_0000_0000_0000) by (nonlinear_arith)
                requires
                    total <= c * 0x1_0000_0000_0000_0000,
                    w <= 0x1_0000_0000_0000_0000,
            ;
            assert((c + 1) * 0x1_0000_0000_0000_0000 <= 0x1_0000_0000 * 0x1_0000_0000_0000_0000) by (nonlinear_arith)
                requires
                    c < 0x1_0000_0000,
            ;
        }
        binner.insert(means[c], w);
        total = total + w;
        proof {
            assert(mseq.take(c + 1).drop_last() =~= mseq.take(c as int));
            assert(mseq.take(c + 1).last() == mseq[c as int]);
            assert(cseq.take(c + 1).last() == cseq[c as int]);
            assert(cseq.take(c + 1).drop_last() =~= cseq.take(c as int));
        }
        c = c + 1;
    }
    proof {
        assert(mseq.take(card as int) =~= mseq);
        assert(cseq.take(card as int) =~= cseq);
    }
    let ranks = compute_rank_thresholds(total, m);
    let bounds = compute_split_points(&binner, &ranks);
    let mut supers: Vec<usize> = Vec::new();
    let mut k: usize = 0;
    while k < card
        invariant
            k <= card,
            means@ == mseq,
            mseq == cat_means(cs, grads@, glims.0 as int, card as nat),
            mseq.len() == card,
            strictly_ascending_values(bounds@),
            bounds@ == cat_bounds(cs, grads@, card as nat, glims, m as nat),
            supers@ == super_cats(cs, grads@, card as nat, glims, m as nat).take(k as int),
        decreases card - k,
    {
        let b = bucket_of(&bounds, means[k]);
        proof {
            assert(mseq[k as int] == cat_mean(cs, grads@, glims.0 as int, k as nat));
            assert(super_cats(cs, grads@, card as nat, glims, m as nat)[k as int] == b);
        }
        supers.push(b);
        k = k + 1;
        assert(supers@ =~= super_cats(cs, grads@, card as nat, glims, m as nat).take(k as int));
    }
    assert(super_cats(cs, grads@, card as nat, glims, m as nat).take(card as int) =~= super_cats(cs, grads@, card as nat, glims, m as nat));
    let mut buckets: Vec<usize> = Vec::new();
    let mut i: usize = 0;
    while i < n
        invariant
            i <= n,
            n == vals@.len(),
            cats@ == cs,
            cs.len() == n,
            supers@.len() == card,
            forall|a: int| 0 <= a < n ==> #[trigger] cs[a] < card,
            buckets@ == row_supers(cs, supers@).take(i as int),
        decreases n - i,
    {
        buckets.push(supers[cats[i]]);
        i = i + 1;
        assert(buckets@ =~= row_supers(cs, supers@).take(i as int));
    }
    assert(row_supers(cs, supers@).take(n as int) =~= row_supers(cs, supers@));
    let rs = ordered_bitvecs(store, bounds.len(), &buckets);
    (rs, supers, bounds)
}

/// Row count and summed gradient offset above `glims.0` of each category.
fn category_sums(cats: &Vec<usize>, grads: &Vec<i64>, card: usize, glims: (i64, i64)) -> (res: (Vec<u128>, Vec<u128>))
    requires
        cats@.len() == grads@.len(),
        forall|i: int| 0 <= i < cats@.len() ==> #[trigger] cats@[i] < card,
        forall|i: int| 0 <= i < grads@.len() ==> glims.0 <= #[trigger] grads@[i] <= glims.1,
    ensures
        res.0@.len() == card,
        res.1@.len() == card,
        forall|c: int| 0 <= c < card ==> #[trigger] res.0@[c] == cat_count(cats@, c as nat) && res.0@[c] <= cats@.len(),
        forall|c: int| 0 <= c < card ==> #[trigger] res.1@[c] == cat_offset_sum(cats@, grads@, glims.0 as int, c as nat),
        forall|c: int| 0 <= c < card ==> #[trigger] res.1@[c] <= res.0@[c] * (glims.1 - glims.0),
{
    let lo = glims.0;
    let ghost span: int = glims.1 - glims.0;
    let mut counts: Vec<u128> = Vec::new();
    let mut sums: Vec<u128> = Vec::new();
    let mut c: usize = 0;
    while c < card
        invariant
            c <= card,
            counts@.len() == c,
            sums@.len() == c,
            forall|a: int| 0 <= a < c ==> #[trigger] counts@[a] == 0,
            forall|a: int| 0 <= a < c ==> #[trigger] sums@[a] == 0,
        decreases card - c,
    {
        counts.push(0);
        sums.push(0);
        c = c + 1;
    }
    let mut i: usize = 0;
    while i < cats.len()
        invariant
            i <= cats@.len(),
            cats@.len() == grads@.len(),
            span == glims.1 - glims.0,
            lo == glims.0,
            counts@.len() == card,
            sums@.len() == card,
            forall|a: int| 0 <= a < cats@.len() ==> #[trigger] cats@[a] < card,
            forall|a: int| 0 <= a < grads@.len() ==> glims.0 <= #[trigger] grads@[a] <= glims.1,
            forall|a: int| 0 <= a < card ==> #[trigger] counts@[a] == cat_count(cats@.take(i as int), a as nat) && counts@[a] <= i,
            forall|a: int| 0 <= a < card ==> #[trigger] sums@[a] == cat_offset_sum(cats@.take(i as int), grads@.take(i as int), lo as int, a as nat),
            forall|a: int| 0 <= a < card ==> #[trigger] sums@[a] <= counts@[a] * span,
        decreases cats@.len() - i,
    {
        let c = cats[i];
        let g = grads[i];
        let d = (g as i128 - lo as i128) as u128;
        let ghost oc = counts@[c as int];
        let ghost os = sums@[c as int];
        proof {
            assert(os + d <= (oc + 1) * span) by (nonlinear_arith)
                requires
                    os <= oc * span,
                    d <= span,
            ;
            assert((oc + 1) * span <= 0x1_0000_0000_0000_0000 * 0xffff_ffff_ffff_ffff) by (nonlinear_arith)
                requires
                    oc + 1 <= 0x1_0000_0000_0000_0000,
                    0 <= span <= 0xffff_ffff_ffff_ffff,
            ;
        }
        counts[c] = counts[c] + 1;
        sums[c] = sums[c] + d;
        proof {
            assert(cats@.take(i + 1).drop_last() =~= cats@.take(i as int));
            assert(grads@.take(i + 1).drop_last() =~= grads@.take(i as int));
        }
        i = i + 1;
    }
    assert(cats@.take(cats@.len() as int) =~= cats@);
    assert(grads@.take(grads@.len() as int) =~= grads@);
    (counts, sums)
}

/// Mean of each category, rounded down, from its count and summed offset
/// above `glims.0`; 0 for a category without rows.
fn category_means(counts: &Vec<u128>, sums: &Vec<u128>, glims: (i64, i64)) -> (means: Vec<i64>)
    requires
        counts@.len() == sums@.len(),
        glims.0 <= glims.1,
        forall|c: int| 0 <= c < counts@.len() ==> #[trigger] sums@[c] <= counts@[c] * (glims.1 - glims.0),
    ensures
        means@.len() == counts@.len(),
        forall|c: int| 0 <= c < counts@.len() ==> #[trigger] means@[c] == if counts@[c] == 0 {
            0i64
        } else {
            (glims.0 + sums@[c] as int / counts@[c] as int) as i64
        },
{
    let mut means: Vec<i64> = Vec::new();
    let mut c: usize = 0;
    while c < counts.len()
        invariant
            c <= counts@.len(),
            counts@.len() == sums@.len(),
            glims.0 <= glims.1,
            forall|a: int| 0 <= a < counts@.len() ==> #[trigger] sums@[a] <= counts@[a] * (glims.1 - glims.0),
            means@.len() == c,
            forall|a: int| 0 <= a < c ==> #[trigger] means@[a] == if counts@[a] == 0 {
                0i64
            } else {
                (glims.0 + sums@[a] as int / counts@[a] as int) as i64
            },
        decreases counts@.len() - c,
    {
        let n = counts[c];
        let s = sums[c];
        if n == 0 {
            means.push(0);
        } else {
            proof {
                assert(s as int / n as int <= glims.1 - glims.0) by (nonlinear_arith)
                    requires
                        s <= n * (glims.1 - glims.0),
                        n > 0,
                ;
            }
            let q = s / n;
            means.push((glims.0 as i128 + q as i128) as i64);
        }
        c = c + 1;
    }
    means
}

} // verus!
