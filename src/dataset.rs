//! One boosting round's view of the store: the sampled rows and features, and
//! for each sampled feature its bitsets, split values and super-categories.
use vstd::prelude::*;
use crate::store::{BitBlockStore, SliceRange, blocks_for, lemma_block_index};
use crate::data::{Data, Config, FeatType, PARTS, FIXED_ONE, fraction_of, fraction_of_spec, valid_category, category_of, lemma_min_le_max, lemma_categories_below_card};
use crate::sampling::{select_examples, reservoir_sample, ascending, strictly_ascending, all_below, identity_seq};
use crate::quantile::{strictly_ascending_values, lemma_bucket_le};
use crate::preprocess::{preprocess_locard_cat, preprocess_hicard_cat, preprocess_num, num_splits, cat_bounds, super_cats, cat_seq, num_buckets, row_supers};

verus! {

/// Offset added to the seed for feature sampling, so that the two draws of a
/// round are independent.
pub const FEATURE_SEED_OFFSET: u64 = 10;

/// The values of `col` at the rows `sel`, in order.
pub open spec fn selected(col: Seq<i64>, sel: Seq<usize>) -> Seq<i64> {
    Seq::new(sel.len(), |i: int| col[sel[i] as int])
}

/// Smallest and largest of 0 and the values of `gs`: the range of the
/// sampled gradients, widened to hold 0, so that category means (and the
/// mean 0 of a category without sampled rows) are binned against a range
/// anchored at zero.
pub open spec fn grad_lims(gs: Seq<i64>) -> (i64, i64)
    decreases gs.len(),
{
    if gs.len() == 0 {
        (0, 0)
    } else {
        let p = grad_lims(gs.drop_last());
        let g = gs.last();
        (if g < p.0 { g } else { p.0 }, if g > p.1 { g } else { p.1 })
    }
}

/// The bit of row `i` in split `k` of column `f` that the round owes: the
/// category equals `k` (low-cardinality), the super-category is at most `k`
/// (high-cardinality), or the value is at most split value `k` (numerical).
pub open spec fn expected_bit(t: FeatType, vals: Seq<i64>, supers: Seq<usize>, splits: Seq<i64>, k: int, i: nat) -> bool {
    i < vals.len() && match t {
        FeatType::LoCardCat => category_of(vals[i as int]) == k,
        FeatType::HiCardCat => supers[category_of(vals[i as int]) as int] <= k,
        FeatType::Numerical => vals[i as int] <= splits[k],
    }
}

/// Ranges `rs` of `s` hold the owed bits.
pub open spec fn bits_as_owed(s: &BitBlockStore, rs: Seq<SliceRange>, t: FeatType, vals: Seq<i64>, supers: Seq<usize>, splits: Seq<i64>) -> bool {
    forall|k: int, i: nat| 0 <= k < rs.len() && i < rs[k].nbits() ==> #[trigger] s.bit(rs[k], i) == expected_bit(t, vals, supers, splits, k, i)
}

/// Split values and super-categories that column `f` owes, and its number of
/// bitsets.
pub open spec fn tables_as_owed(data: &Data, gs: Seq<i64>, ex: Seq<usize>, glims: (i64, i64), m: nat, f: int, nbins: nat, supers: Seq<usize>, splits: Seq<i64>) -> bool {
    let vals = selected(data.columns()[f], ex);
    let card = data.cards_spec()[f] as nat;
    match data.types_spec()[f] {
        FeatType::LoCardCat => nbins == card,
        FeatType::HiCardCat => splits == cat_bounds(cat_seq(vals), gs, card, glims, m)
            && supers == super_cats(cat_seq(vals), gs, card, glims, m)
            && strictly_ascending_values(splits)
            && nbins == splits.len() && nbins <= m,
        FeatType::Numerical => splits == num_splits(vals, gs, data.limits_spec()[f], m)
            && strictly_ascending_values(splits)
            && nbins == splits.len() && nbins <= m,
    }
}

/// A round's view: sampled rows and features, and per feature column its
/// bitsets (ranges of the arena), split values and super-categories. It
/// borrows the store and the gradients, which outlive every round.
pub struct Dataset<'a> {
    data: &'a Data,
    gradient: &'a Vec<i64>,
    max_nbins: usize,
    ftypes: Vec<FeatType>,
    cards: Vec<usize>,
    limits: Vec<(i64, i64)>,
    gradient_lims: (i64, i64),
    feat_sel: Vec<usize>,
    example_sel: Vec<usize>,
    store: BitBlockStore,
    bitvecs: Vec<Vec<SliceRange>>,
    super_categories: Vec<Vec<usize>>,
    split_values: Vec<Vec<i64>>,
}

impl<'a> Dataset<'a> {
    pub closed spec fn max_nbins_spec(&self) -> nat {
        self.max_nbins as nat
    }

    /// The store that the round reads.
    pub closed spec fn data_spec(&self) -> Data {
        *self.data
    }

    /// The gradients, one per row of the store.
    pub closed spec fn gradient_spec(&self) -> Seq<i64> {
        self.gradient@
    }

    pub closed spec fn types_spec(&self) -> Seq<FeatType> {
        self.ftypes@
    }

    pub closed spec fn cards_spec(&self) -> Seq<usize> {
        self.cards@
    }

    pub closed spec fn limits_spec(&self) -> Seq<(i64, i64)> {
        self.limits@
    }

    /// Smallest and largest gradient of the sampled rows (and 0).
    pub closed spec fn gradient_lims_spec(&self) -> (i64, i64) {
        self.gradient_lims
    }

    /// Sampled feature columns, ascending.
    pub closed spec fn features_spec(&self) -> Seq<usize> {
        self.feat_sel@
    }

    /// Sampled rows, ascending, possibly repeated.
    pub closed spec fn examples_spec(&self) -> Seq<usize> {
        self.example_sel@
    }

    pub closed spec fn store_spec(&self) -> BitBlockStore {
        self.store
    }

    pub closed spec fn ranges_spec(&self) -> Seq<Seq<SliceRange>> {
        self.bitvecs@.map_values(|v: Vec<SliceRange>| v@)
    }

    pub closed spec fn supers_spec(&self) -> Seq<Seq<usize>> {
        self.super_categories@.map_values(|v: Vec<usize>| v@)
    }

    pub closed spec fn splits_spec(&self) -> Seq<Seq<i64>> {
        self.split_values@.map_values(|v: Vec<i64>| v@)
    }

    /// Number of bitsets of column `f`.
    pub open spec fn nbins_spec(&self, f: int) -> nat {
        self.ranges_spec()[f].len()
    }

    /// Bit of row `i` in bitset `k` of column `f`.
    pub open spec fn bit(&self, f: int, k: int, i: nat) -> bool {
        self.store_spec().bit(self.ranges_spec()[f][k], i)
    }

    /// The bound on the bitset count of column `f`, whatever the gradients.
    pub open spec fn max_nbins_of(&self, f: int) -> nat {
        if self.types_spec()[f] == FeatType::LoCardCat {
            self.cards_spec()[f] as nat
        } else {
            self.max_nbins_spec()
        }
    }

    /// The borrowed store is well formed with one gradient per row; every
    /// range lies in the arena and holds one bit per sampled row.
    pub open spec fn wf(&self) -> bool {
        let m = self.ranges_spec().len();
        &&& self.data_spec().wf()
        &&& self.gradient_spec().len() == self.data_spec().nexamples_spec()
        &&& self.types_spec().len() == m
        &&& self.cards_spec().len() == m
        &&& self.limits_spec().len() == m
        &&& self.supers_spec().len() == m
        &&& self.splits_spec().len() == m
        &&& forall|f: int| 0 <= f < m ==> #[trigger] self.ranges_spec()[f].len() <= u32::MAX
        &&& forall|f: int| 0 <= f < m ==> (#[trigger] self.types_spec()[f] != FeatType::LoCardCat ==> self.splits_spec()[f].len() == self.ranges_spec()[f].len())
        &&& forall|f: int, k: int| 0 <= f < m && 0 <= k < self.ranges_spec()[f].len() ==> self.store_spec().holds(#[trigger] self.ranges_spec()[f][k]) && self.ranges_spec()[f][k].nblocks == blocks_for(self.examples_spec().len())
    }

    /// The round was built from `data`, the gradients `gradient` and
    /// `config`: everything but the two random draws is fixed by them.
    pub open spec fn built_from(&self, data: &Data, gradient: Seq<i64>, config: &Config) -> bool {
        let n = data.nexamples_spec();
        let m = data.nfeatures_spec();
        let ex = self.examples_spec();
        let gs = selected(gradient, ex);
        &&& self.wf()
        &&& self.data_spec() == *data
        &&& self.gradient_spec() == gradient
        &&& self.ranges_spec().len() == m
        &&& self.max_nbins_spec() == config.max_nbins
        &&& self.types_spec() == data.types_spec().take(m as int)
        &&& self.cards_spec() == data.cards_spec().take(m as int)
        &&& self.limits_spec() == data.limits_spec().take(m as int)
        &&& ex.len() == fraction_of_spec(n, config.example_fraction as nat)
        &&& ascending(ex)
        &&& all_below(ex, n)
        &&& (ex.len() == n ==> ex == identity_seq(n))
        &&& self.features_spec().len() == fraction_of_spec(m, config.feature_fraction as nat)
        &&& strictly_ascending(self.features_spec())
        &&& all_below(self.features_spec(), m)
        &&& self.gradient_lims_spec() == grad_lims(gs)
        &&& forall|f: int| 0 <= f < m ==> (#[trigger] self.features_spec().contains(f as usize) ==> self.feature_built(data, gradient, f))
        &&& forall|f: int| 0 <= f < m ==> (!#[trigger] self.features_spec().contains(f as usize) ==> self.unbuilt(f))
    }

    /// Column `f` holds no bitsets and no tables.
    pub open spec fn unbuilt(&self, f: int) -> bool {
        self.nbins_spec(f) == 0 && self.supers_spec()[f].len() == 0 && self.splits_spec()[f].len() == 0
    }

    /// Column `f` holds the tables and bits that it owes.
    pub open spec fn feature_built(&self, data: &Data, gradient: Seq<i64>, f: int) -> bool {
        let ex = self.examples_spec();
        &&& tables_as_owed(data, selected(gradient, ex), ex, self.gradient_lims_spec(), self.max_nbins_spec(), f, self.nbins_spec(f), self.supers_spec()[f], self.splits_spec()[f])
        &&& bits_as_owed(&self.store_spec(), self.ranges_spec()[f], data.types_spec()[f], selected(data.columns()[f], ex), self.supers_spec()[f], self.splits_spec()[f])
    }

    fn new(max_nbins: usize, data: &'a Data, gradient: &'a Vec<i64>) -> (ds: Dataset<'a>)
        ensures
            ds.max_nbins_spec() == max_nbins,
            ds.data_spec() == *data,
            ds.gradient_spec() == gradient@,
    {
        Dataset {
            data,
            gradient,
            max_nbins,
            ftypes: Vec::new(),
            cards: Vec::new(),
            limits: Vec::new(),
            gradient_lims: (0, 0),
            feat_sel: Vec::new(),
            example_sel: Vec::new(),
            store: BitBlockStore::new(),
            bitvecs: Vec::new(),
            super_categories: Vec::new(),
            split_values: Vec::new(),
        }
    }

    fn reset(&mut self)
        ensures
            final(self).max_nbins_spec() == old(self).max_nbins_spec(),
            final(self).data_spec() == old(self).data_spec(),
            final(self).gradient_spec() == old(self).gradient_spec(),
            final(self).store_spec()@.len() == 0,
            final(self).ranges_spec().len() == 0,
            final(self).examples_spec().len() == 0,
            final(self).features_spec().len() == 0,
            final(self).supers_spec().len() == 0,
            final(self).splits_spec().len() == 0,
    {
        self.feat_sel.clear();
        self.example_sel.clear();
        self.store.reset();
        self.bitvecs.clear();
        self.super_categories.clear();
        self.split_values.clear();
        assert(self.ranges_spec() =~= Seq::<Seq<SliceRange>>::empty());
    }

    /// Builds the round for `data` and the gradients `gradient` (one per row).
    pub fn construct_from_data(config: &Config, data: &'a Data, gradient: &'a Vec<i64>) -> (ds: Dataset<'a>)
        requires
            data.wf(),
            gradient@.len() == data.nexamples_spec(),
            config.example_fraction <= PARTS,
            config.feature_fraction <= PARTS,
            config.max_nbins <= u32::MAX,
        ensures
            ds.built_from(data, gradient@, config),
    {
        let mut ds = Dataset::new(config.max_nbins, data, gradient);
        ds.construct_again_no_reset(config);
        ds
    }

    /// Rebuilds the round in place for `config`, over the same store and
    /// gradients, reusing the arena.
    pub fn construct_again(&mut self, config: &Config)
        requires
            old(self).wf(),
            config.example_fraction <= PARTS,
            config.feature_fraction <= PARTS,
            config.max_nbins <= u32::MAX,
        ensures
            final(self).built_from(&old(self).data_spec(), old(self).gradient_spec(), config),
    {
        self.reset();
        self.max_nbins = config.max_nbins;
        self.construct_again_no_reset(config);
    }
}

impl<'a> Dataset<'a> {
    /// Samples rows and features, then preprocesses each sampled feature by
    /// its type, into a rewound arena and fresh tables.
    fn construct_again_no_reset(&mut self, config: &Config)
        requires
            old(self).data_spec().wf(),
            old(self).gradient_spec().len() == old(self).data_spec().nexamples_spec(),
            config.example_fraction <= PARTS,
            config.feature_fraction <= PARTS,
            config.max_nbins <= u32::MAX,
            old(self).max_nbins_spec() == config.max_nbins,
        ensures
            final(self).built_from(&old(self).data_spec(), old(self).gradient_spec(), config),
    {
        let data = self.data;
        let gradient = self.gradient;
        let n = data.nexamples();
        let m = data.nfeatures();
        let k = fraction_of(n, config.example_fraction);
        let l = fraction_of(m, config.feature_fraction);
        self.example_sel = select_examples(n, k, config.random_seed);
        self.feat_sel = reservoir_sample(m, l, config.random_seed.wrapping_add(FEATURE_SEED_OFFSET));
        let gs = gather(gradient, &self.example_sel);
        let glims = grad_limits(&gs);
        self.gradient_lims = glims;
        self.store.reset();
        let (ftypes, cards, limits) = column_tables(data);
        self.ftypes = ftypes;
        self.cards = cards;
        self.limits = limits;
        self.bitvecs = empty_tables(m);
        self.super_categories = empty_tables(m);
        self.split_values = empty_tables(m);
        proof {
            assert forall|g: int| 0 <= g < m && #[trigger] self.types_spec()[g] != FeatType::LoCardCat implies self.splits_spec()[g].len() == self.ranges_spec()[g].len() by {
                assert(self.bitvecs@[g]@.len() == 0);
                assert(self.split_values@[g]@.len() == 0);
            }
            assert forall|g: int| 0 <= g < m && !#[trigger] self.feat_sel@.take(0).contains(g as usize) implies self.unbuilt(g) by {
                assert(self.bitvecs@[g]@.len() == 0);
                assert(self.super_categories@[g]@.len() == 0);
                assert(self.split_values@[g]@.len() == 0);
            }
        }
        let ghost ex = self.example_sel@;
        proof {
            lemma_glims_hold(gs@);
        }
        let mut u: usize = 0;
        while u < l
            invariant
                u <= l,
                m == data.nfeatures_spec(),
                n == data.nexamples_spec(),
                data.wf(),
                self.data_spec() == *data,
                self.gradient_spec() == gradient@,
                gradient@.len() == n,
                config.max_nbins <= u32::MAX,
                self.max_nbins_spec() == config.max_nbins,
                self.example_sel@ == ex,
                ex.len() == fraction_of_spec(n as nat, config.example_fraction as nat),
                ascending(ex),
                all_below(ex, n as nat),
                ex.len() == n ==> ex == identity_seq(n as nat),
                self.feat_sel@.len() == l,
                l == fraction_of_spec(m as nat, config.feature_fraction as nat),
                strictly_ascending(self.feat_sel@),
                all_below(self.feat_sel@, m as nat),
                gs@ == selected(gradient@, ex),
                glims == grad_lims(gs@),
                self.gradient_lims == glims,
                glims.0 <= glims.1,
                forall|i: int| 0 <= i < gs@.len() ==> glims.0 <= #[trigger] gs@[i] <= glims.1,
                self.ftypes@ == data.types_spec().take(m as int),
                self.cards@ == data.cards_spec().take(m as int),
                self.limits@ == data.limits_spec().take(m as int),
                self.bitvecs@.len() == m,
                self.super_categories@.len() == m,
                self.split_values@.len() == m,
                self.wf(),
                forall|g: int| 0 <= g < m ==> (#[trigger] self.feat_sel@.take(u as int).contains(g as usize) ==> self.feature_built(data, gradient@, g)),
                forall|g: int| 0 <= g < m ==> (!#[trigger] self.feat_sel@.take(u as int).contains(g as usize) ==> self.unbuilt(g)),
            decreases l - u,
        {
            let fid = self.feat_sel[u];
            let col = data.get_feature(fid);
            let vals = gather(col, &self.example_sel);
            let t = data.feat_type(fid);
            let card = data.feat_card(fid);
            let ghost old_self = *self;
            let ghost s0 = self.store;
            proof {
                assert(!self.feat_sel@.take(u as int).contains(fid)) by {
                    if self.feat_sel@.take(u as int).contains(fid) {
                        let a = choose|a: int| 0 <= a < u && #[trigger] self.feat_sel@.take(u as int)[a] == fid;
                        assert(self.feat_sel@[a] < self.feat_sel@[u as int]);
                    }
                }
                if t != FeatType::Numerical {
                    lemma_categories_below_card(data.columns()[fid as int]);
                    assert forall|i: int| 0 <= i < vals@.len() implies valid_category(#[trigger] vals@[i]) && category_of(vals@[i]) < card by {
                        assert(vals@[i] == data.columns()[fid as int][ex[i] as int]);
                    }
                }
                lemma_min_le_max(data.columns()[fid as int]);
            }
            let ghost vs = vals@;
            match t {
                FeatType::LoCardCat => {
                    let rs = preprocess_locard_cat(&mut self.store, &vals, card);
                    let ghost rsv = rs@;
                    self.bitvecs[fid] = rs;
                    proof {
                        lemma_others_kept(&old_self, self, data, gradient@, fid as int);
                        assert(self.ranges_spec()[fid as int] == rsv);
                        assert forall|k: int, i: nat| 0 <= k < rsv.len() && i < rsv[k].nbits() implies #[trigger] self.store.bit(rsv[k], i) == expected_bit(t, vs, self.supers_spec()[fid as int], self.splits_spec()[fid as int], k, i) by {
                            if i < vs.len() {
                                assert(cat_seq(vs)[i as int] == category_of(vs[i as int]));
                            }
                        }
                        assert(self.feature_built(data, gradient@, fid as int));
                    }
                },
                FeatType::HiCardCat => {
                    let (rs, supers, bounds) = preprocess_hicard_cat(&mut self.store, &vals, &gs, card, glims, self.max_nbins);
                    let ghost rsv = rs@;
                    let ghost sv = supers@;
                    let ghost bv = bounds@;
                    self.bitvecs[fid] = rs;
                    self.super_categories[fid] = supers;
                    self.split_values[fid] = bounds;
                    proof {
                        lemma_others_kept(&old_self, self, data, gradient@, fid as int);
                        assert(self.ranges_spec()[fid as int] == rsv);
                        assert(self.supers_spec()[fid as int] == sv);
                        assert(self.splits_spec()[fid as int] == bv);
                        assert forall|k: int, i: nat| 0 <= k < rsv.len() && i < rsv[k].nbits() implies #[trigger] self.store.bit(rsv[k], i) == expected_bit(t, vs, sv, bv, k, i) by {
                            if i < vs.len() {
                                assert(cat_seq(vs)[i as int] == category_of(vs[i as int]));
                                assert(row_supers(cat_seq(vs), sv)[i as int] == sv[category_of(vs[i as int]) as int]);
                            }
                        }
                        assert(self.feature_built(data, gradient@, fid as int));
                    }
                },
                FeatType::Numerical => {
                    let (rs, splits) = preprocess_num(&mut self.store, &vals, &gs, data.feat_limits(fid), self.max_nbins);
                    let ghost rsv = rs@;
                    let ghost spv = splits@;
                    self.bitvecs[fid] = rs;
                    self.split_values[fid] = splits;
                    proof {
                        lemma_others_kept(&old_self, self, data, gradient@, fid as int);
                        assert(self.ranges_spec()[fid as int] == rsv);
                        assert(self.splits_spec()[fid as int] == spv);
                        assert forall|k: int, i: nat| 0 <= k < rsv.len() && i < rsv[k].nbits() implies #[trigger] self.store.bit(rsv[k], i) == expected_bit(t, vs, self.supers_spec()[fid as int], spv, k, i) by {
                            if i < vs.len() {
                                crate::quantile::lemma_count_below_bound(spv, vs[i as int] as int);
                                assert(num_buckets(vs, spv)[i as int] == crate::quantile::count_below(spv, vs[i as int] as int));
                                lemma_bucket_le(spv, vs[i as int] as int, k);
                            }
                        }
                        assert(self.feature_built(data, gradient@, fid as int));
                    }
                },
            }
            proof {
                assert forall|g: int| 0 <= g < m && #[trigger] self.feat_sel@.take(u + 1).contains(g as usize) implies self.feature_built(data, gradient@, g) by {
                    if g != fid {
                        let a = choose|a: int| 0 <= a < u + 1 && #[trigger] self.feat_sel@.take(u + 1)[a] == g as usize;
                        assert(self.feat_sel@.take(u as int)[a] == g as usize);
                        assert(old_self.feat_sel@.take(u as int).contains(g as usize));
                        assert(old_self.feature_built(data, gradient@, g));
                    }
                }
                assert forall|g: int| 0 <= g < m && !#[trigger] self.feat_sel@.take(u + 1).contains(g as usize) implies self.unbuilt(g) by {
                    assert(self.feat_sel@.take(u + 1)[u as int] == fid);
                    if old_self.feat_sel@.take(u as int).contains(g as usize) {
                        let a = choose|a: int| 0 <= a < u && #[trigger] self.feat_sel@.take(u as int)[a] == g as usize;
                        assert(self.feat_sel@.take(u + 1)[a] == g as usize);
                    }
                }
            }
            u = u + 1;
        }
        proof {
            assert(self.feat_sel@.take(l as int) =~= self.feat_sel@);
        }
    }
}

impl<'a> Dataset<'a> {
    /// Bound on the bitset count of column `feat_id` that holds whatever the
    /// gradients: the cardinality for a low-cardinality categorical column,
    /// `max_nbins` otherwise.
    pub fn get_max_nbins(&self, feat_id: usize) -> (r: usize)
        requires
            self.wf(),
            feat_id < self.ranges_spec().len(),
        ensures
            r == self.max_nbins_of(feat_id as int),
    {
        match self.ftypes[feat_id] {
            FeatType::LoCardCat => self.cards[feat_id],
            FeatType::HiCardCat => self.max_nbins,
            FeatType::Numerical => self.max_nbins,
        }
    }

    /// Number of bitsets of column `feat_id` in this round.
    pub fn get_nbins(&self, feat_id: usize) -> (r: usize)
        requires
            self.wf(),
            feat_id < self.ranges_spec().len(),
        ensures
            r == self.nbins_spec(feat_id as int),
    {
        self.bitvecs[feat_id].len()
    }

    /// The blocks of bitset `split_id` of column `feat_id`: bit `i` of the
    /// bitset is bit `i % 64` of block `i / 64`.
    pub fn get_bitvec(&self, feat_id: usize, split_id: usize) -> (v: Vec<u64>)
        requires
            self.wf(),
            feat_id < self.ranges_spec().len(),
            split_id < self.nbins_spec(feat_id as int),
        ensures
            v@ == self.store_spec()@.subrange(self.ranges_spec()[feat_id as int][split_id as int].start as int, self.ranges_spec()[feat_id as int][split_id as int].start + self.ranges_spec()[feat_id as int][split_id as int].nblocks),
            v@.len() == blocks_for(self.examples_spec().len()),
    {
        let r = self.bitvecs[feat_id][split_id];
        assert(r == self.ranges_spec()[feat_id as int][split_id as int]);
        self.store.get_bitvec(r)
    }

    /// Bit of sampled row `i` in bitset `split_id` of column `feat_id`.
    pub fn get_bit(&self, feat_id: usize, split_id: usize, i: usize) -> (b: bool)
        requires
            self.wf(),
            feat_id < self.ranges_spec().len(),
            split_id < self.nbins_spec(feat_id as int),
            i < self.examples_spec().len(),
        ensures
            b == self.bit(feat_id as int, split_id as int, i as nat),
    {
        let r = self.bitvecs[feat_id][split_id];
        assert(r == self.ranges_spec()[feat_id as int][split_id as int]);
        proof {
            let n = self.examples_spec().len();
            assert(i < r.nbits()) by (nonlinear_arith)
                requires
                    i < n,
                    r.nblocks == (n + 63) / 64,
            ;
        }
        self.store.get_bit(r, i)
    }

    /// Threshold of split `split_id` of column `feat_id`: the category (a
    /// split tests equality with it) for a low-cardinality categorical
    /// column, the super-category id for a high-cardinality one, and the
    /// split value (a split tests `<=`) for a numerical one; categories and
    /// ids as fixed-point numbers.
    pub fn get_split_value(&self, feat_id: usize, split_id: usize) -> (v: i64)
        requires
            self.wf(),
            feat_id < self.ranges_spec().len(),
            split_id < self.nbins_spec(feat_id as int),
        ensures
            v as int == if self.types_spec()[feat_id as int] == FeatType::Numerical {
                self.splits_spec()[feat_id as int][split_id as int] as int
            } else {
                split_id * FIXED_ONE
            },
    {
        assert(self.ranges_spec()[feat_id as int].len() <= u32::MAX);
        assert(self.types_spec()[feat_id as int] != FeatType::LoCardCat ==> self.splits_spec()[feat_id as int].len() == self.ranges_spec()[feat_id as int].len());
        match self.ftypes[feat_id] {
            FeatType::Numerical => self.split_values[feat_id][split_id],
            _ => (split_id as i64) * FIXED_ONE,
        }
    }

    /// Super-category of a value of high-cardinality categorical column
    /// `feat_id`.
    pub fn get_super_category(&self, feat_id: usize, value: i64) -> (c: usize)
        requires
            self.wf(),
            feat_id < self.ranges_spec().len(),
            self.types_spec()[feat_id as int] == FeatType::HiCardCat,
            valid_category(value),
            category_of(value) < self.supers_spec()[feat_id as int].len(),
        ensures
            c == self.supers_spec()[feat_id as int][category_of(value) as int],
    {
        self.super_categories[feat_id][((value as u64) / (FIXED_ONE as u64)) as usize]
    }

    /// Number of sampled features.
    pub fn nfeatures(&self) -> (n: usize)
        ensures
            n == self.features_spec().len(),
    {
        self.feat_sel.len()
    }

    /// The sampled feature columns, ascending.
    pub fn feat_ids(&self) -> (v: &Vec<usize>)
        ensures
            v@ == self.features_spec(),
    {
        &self.feat_sel
    }

    /// Number of sampled rows.
    pub fn nexamples(&self) -> (n: usize)
        ensures
            n == self.examples_spec().len(),
    {
        self.example_sel.len()
    }

    /// The sampled rows, ascending, possibly repeated.
    pub fn examples(&self) -> (v: &Vec<usize>)
        ensures
            v@ == self.examples_spec(),
    {
        &self.example_sel
    }

    /// Smallest and largest value of column `feat_id`.
    pub fn feat_limits(&self, feat_id: usize) -> (l: (i64, i64))
        requires
            self.wf(),
            feat_id < self.ranges_spec().len(),
        ensures
            l == self.limits_spec()[feat_id as int],
    {
        self.limits[feat_id]
    }

    /// Type of column `feat_id`.
    pub fn feat_type(&self, feat_id: usize) -> (t: FeatType)
        requires
            self.wf(),
            feat_id < self.ranges_spec().len(),
        ensures
            t == self.types_spec()[feat_id as int],
    {
        self.ftypes[feat_id]
    }

    /// Number of categories of column `feat_id` (0 for a numerical column).
    pub fn feat_card(&self, feat_id: usize) -> (c: usize)
        requires
            self.wf(),
            feat_id < self.ranges_spec().len(),
        ensures
            c == self.cards_spec()[feat_id as int],
    {
        self.cards[feat_id]
    }

    /// Name of column `feature` of the store.
    pub fn feat_name(&self, feature: usize) -> (s: &String)
        requires
            self.wf(),
            feature < self.data_spec().columns().len(),
        ensures
            *s == self.data_spec().names_spec()[feature as int],
    {
        self.data.feat_name(feature)
    }

    /// Values of column `feat_id` of the store, for every row.
    pub fn get_feature(&self, feat_id: usize) -> (v: &Vec<i64>)
        requires
            self.wf(),
            feat_id < self.data_spec().columns().len(),
        ensures
            v@ == self.data_spec().columns()[feat_id as int],
    {
        self.data.get_feature(feat_id)
    }

    /// Values of the target column of the store.
    pub fn get_target(&self) -> (v: &Vec<i64>)
        requires
            self.wf(),
        ensures
            v@ == self.data_spec().columns()[self.data_spec().nfeatures_spec() as int],
    {
        self.data.get_target()
    }

    /// The gradients, one per row of the store.
    pub fn get_gradient(&self) -> (v: &Vec<i64>)
        ensures
            v@ == self.gradient_spec(),
    {
        self.gradient
    }
}

/// Ordered bitsets are nested: for a numerical or high-cardinality
/// categorical feature, bitset `a` is a subset of bitset `b` when `a < b`.
pub proof fn lemma_monotone(ds: &Dataset<'_>, data: &Data, gradient: Seq<i64>, config: &Config, f: int, a: int, b: int, i: nat)
    requires
        data.wf(),
        ds.built_from(data, gradient, config),
        0 <= f < data.nfeatures_spec(),
        ds.types_spec()[f] != FeatType::LoCardCat,
        0 <= a < b < ds.nbins_spec(f),
        i < ds.ranges_spec()[f][b].nbits(),
    ensures
        ds.bit(f, a, i) ==> ds.bit(f, b, i),
{
    if ds.features_spec().contains(f as usize) {
        assert(ds.feature_built(data, gradient, f));
        assert(ds.types_spec()[f] == data.types_spec()[f]);
        assert(ds.ranges_spec()[f][a].nblocks == ds.ranges_spec()[f][b].nblocks);
        if data.types_spec()[f] == FeatType::Numerical {
            let sp = ds.splits_spec()[f];
            assert(sp[a] < sp[b]);
        }
    }
}

/// One-hot bitsets partition the sampled rows: for a low-cardinality
/// categorical feature, each sampled row is in exactly one bitset.
pub proof fn lemma_one_hot(ds: &Dataset<'_>, data: &Data, gradient: Seq<i64>, config: &Config, f: int, i: nat)
    requires
        data.wf(),
        ds.built_from(data, gradient, config),
        0 <= f < data.nfeatures_spec(),
        ds.features_spec().contains(f as usize),
        ds.types_spec()[f] == FeatType::LoCardCat,
        i < ds.examples_spec().len(),
    ensures
        exists|c: int| 0 <= c < ds.nbins_spec(f) && ds.bit(f, c, i) && forall|k: int| 0 <= k < ds.nbins_spec(f) && k != c ==> !#[trigger] ds.bit(f, k, i),
{
    assert(ds.feature_built(data, gradient, f));
    assert(ds.types_spec()[f] == data.types_spec()[f]);
    let ex = ds.examples_spec();
    let col = data.columns()[f];
    let vals = selected(col, ex);
    lemma_categories_below_card(col);
    let c = category_of(vals[i as int]) as int;
    assert(c < ds.nbins_spec(f));
    let n = ex.len();
    assert(i < ds.ranges_spec()[f][c].nbits()) by (nonlinear_arith)
        requires
            i < n,
            ds.ranges_spec()[f][c].nblocks == (n + 63) / 64,
    ;
    assert(ds.bit(f, c, i));
    assert forall|k: int| 0 <= k < ds.nbins_spec(f) && k != c implies !#[trigger] ds.bit(f, k, i) by {
        assert(ds.ranges_spec()[f][k].nblocks == ds.ranges_spec()[f][c].nblocks);
    }
}

/// Bagging with every row selects each row once, in order.
pub proof fn lemma_identity_bagging(ds: &Dataset<'_>, data: &Data, gradient: Seq<i64>, config: &Config)
    requires
        data.wf(),
        ds.built_from(data, gradient, config),
        fraction_of_spec(data.nexamples_spec(), config.example_fraction as nat) == data.nexamples_spec(),
    ensures
        ds.examples_spec() == identity_seq(data.nexamples_spec()),
{
}

/// The bitset count of a feature never exceeds its bound, which is the
/// cardinality for a low-cardinality categorical feature and `max_nbins`
/// otherwise.
pub proof fn lemma_bin_count_bound(ds: &Dataset<'_>, data: &Data, gradient: Seq<i64>, config: &Config, f: int)
    requires
        data.wf(),
        ds.built_from(data, gradient, config),
        0 <= f < data.nfeatures_spec(),
    ensures
        ds.nbins_spec(f) <= ds.max_nbins_of(f),
        ds.max_nbins_of(f) == if data.types_spec()[f] == FeatType::LoCardCat {
            data.cards_spec()[f] as nat
        } else {
            config.max_nbins as nat
        },
{
    assert(ds.types_spec()[f] == data.types_spec()[f]);
    assert(ds.cards_spec()[f] == data.cards_spec()[f]);
    if ds.features_spec().contains(f as usize) {
        assert(ds.feature_built(data, gradient, f));
    }
}

/// Split values of a numerical feature, and super-category boundaries of a
/// high-cardinality categorical one, strictly increase with the split index.
pub proof fn lemma_split_order(ds: &Dataset<'_>, data: &Data, gradient: Seq<i64>, config: &Config, f: int, a: int, b: int)
    requires
        data.wf(),
        ds.built_from(data, gradient, config),
        0 <= f < data.nfeatures_spec(),
        ds.features_spec().contains(f as usize),
        ds.types_spec()[f] != FeatType::LoCardCat,
        0 <= a < b < ds.nbins_spec(f),
    ensures
        ds.splits_spec()[f][a] < ds.splits_spec()[f][b],
{
    assert(ds.feature_built(data, gradient, f));
    assert(ds.types_spec()[f] == data.types_spec()[f]);
}

/// Two rounds built from the same data, gradients and configuration that
/// drew the same rows and features hold the same tables and bitsets.
pub proof fn lemma_reproducible(d1: &Dataset<'_>, d2: &Dataset<'_>, data: &Data, gradient: Seq<i64>, config: &Config, f: int, k: int, i: nat)
    requires
        data.wf(),
        d1.built_from(data, gradient, config),
        d2.built_from(data, gradient, config),
        d1.examples_spec() == d2.examples_spec(),
        d1.features_spec() == d2.features_spec(),
        0 <= f < data.nfeatures_spec(),
    ensures
        d1.nbins_spec(f) == d2.nbins_spec(f),
        data.types_spec()[f] != FeatType::LoCardCat ==> d1.splits_spec()[f] == d2.splits_spec()[f],
        data.types_spec()[f] == FeatType::HiCardCat ==> d1.supers_spec()[f] == d2.supers_spec()[f],
        0 <= k < d1.nbins_spec(f) && i < d1.ranges_spec()[f][k].nbits() ==> d1.bit(f, k, i) == d2.bit(f, k, i),
{
    if !d1.features_spec().contains(f as usize) {
        assert(d1.unbuilt(f));
        assert(d2.unbuilt(f));
        assert(d1.splits_spec()[f] =~= d2.splits_spec()[f]);
        assert(d1.supers_spec()[f] =~= d2.supers_spec()[f]);
    } else {
        assert(d1.feature_built(data, gradient, f));
        assert(d2.feature_built(data, gradient, f));
        if 0 <= k < d1.nbins_spec(f) && i < d1.ranges_spec()[f][k].nbits() {
            assert(d1.ranges_spec()[f][k].nblocks == d2.ranges_spec()[f][k].nblocks);
        }
    }
}

/// Columns other than `fid` keep their tables and bits when only column
/// `fid` changed and the arena only grew.
proof fn lemma_others_kept(a: &Dataset<'_>, b: &Dataset<'_>, data: &Data, gradient: Seq<i64>, fid: int)
    requires
        a.wf(),
        b.data_spec() == a.data_spec(),
        b.gradient_spec() == a.gradient_spec(),
        0 <= fid < a.ranges_spec().len(),
        b.ranges_spec().len() == a.ranges_spec().len(),
        b.types_spec() == a.types_spec(),
        b.cards_spec() == a.cards_spec(),
        b.limits_spec() == a.limits_spec(),
        b.supers_spec().len() == a.supers_spec().len(),
        b.splits_spec().len() == a.splits_spec().len(),
        b.examples_spec() == a.examples_spec(),
        b.gradient_lims_spec() == a.gradient_lims_spec(),
        b.max_nbins_spec() == a.max_nbins_spec(),
        forall|g: int| 0 <= g < a.ranges_spec().len() && g != fid ==> #[trigger] b.ranges_spec()[g] == a.ranges_spec()[g],
        forall|g: int| 0 <= g < a.ranges_spec().len() && g != fid ==> #[trigger] b.supers_spec()[g] == a.supers_spec()[g],
        forall|g: int| 0 <= g < a.ranges_spec().len() && g != fid ==> #[trigger] b.splits_spec()[g] == a.splits_spec()[g],
        b.store_spec()@.len() >= a.store_spec()@.len(),
        b.store_spec()@.subrange(0, a.store_spec()@.len() as int) == a.store_spec()@,
        forall|k: int| 0 <= k < b.ranges_spec()[fid].len() ==> b.store_spec().holds(#[trigger] b.ranges_spec()[fid][k]) && b.ranges_spec()[fid][k].nblocks == blocks_for(b.examples_spec().len()),
        b.ranges_spec()[fid].len() <= u32::MAX,
        b.types_spec()[fid] != FeatType::LoCardCat ==> b.splits_spec()[fid].len() == b.ranges_spec()[fid].len(),
    ensures
        b.wf(),
        forall|g: int| 0 <= g < a.ranges_spec().len() && g != fid && a.feature_built(data, gradient, g) ==> #[trigger] b.feature_built(data, gradient, g),
{
    assert forall|g: int| 0 <= g < a.ranges_spec().len() && g != fid && a.feature_built(data, gradient, g) implies #[trigger] b.feature_built(data, gradient, g) by {
        assert forall|k: int, i: nat| 0 <= k < b.ranges_spec()[g].len() && i < b.ranges_spec()[g][k].nbits() implies #[trigger] b.store_spec().bit(b.ranges_spec()[g][k], i) == a.store_spec().bit(a.ranges_spec()[g][k], i) by {
            lemma_prefix_bit(&a.store_spec(), &b.store_spec(), a.ranges_spec()[g][k], i);
        }
    }
    assert forall|g: int| 0 <= g < b.ranges_spec().len() && #[trigger] b.types_spec()[g] != FeatType::LoCardCat implies b.splits_spec()[g].len() == b.ranges_spec()[g].len() by {
        if g != fid {
            assert(a.types_spec()[g] == b.types_spec()[g]);
        }
    }
    assert forall|g: int| 0 <= g < b.ranges_spec().len() implies #[trigger] b.ranges_spec()[g].len() <= u32::MAX by {
        if g != fid {
            assert(a.ranges_spec()[g].len() <= u32::MAX);
        }
    }
    assert forall|g: int, k: int| 0 <= g < b.ranges_spec().len() && 0 <= k < b.ranges_spec()[g].len() implies b.store_spec().holds(#[trigger] b.ranges_spec()[g][k]) && b.ranges_spec()[g][k].nblocks == blocks_for(b.examples_spec().len()) by {
        if g != fid {
            assert(a.store_spec().holds(a.ranges_spec()[g][k]));
        }
    }
}

/// Bits of a range that lay in the arena keep their value when the arena
/// only grows past it.
proof fn lemma_prefix_bit(s0: &BitBlockStore, s1: &BitBlockStore, q: SliceRange, j: nat)
    requires
        s0.holds(q),
        j < q.nbits(),
        s1@.len() >= s0@.len(),
        s1@.subrange(0, s0@.len() as int) == s0@,
    ensures
        s1.bit(q, j) == s0.bit(q, j),
{
    lemma_block_index(j, q.nblocks as nat);
    assert(s1@.subrange(0, s0@.len() as int)[q.start + j / 64] == s1@[q.start + j / 64]);
}

/// The gradient limits contain 0 and every gradient.
proof fn lemma_glims_hold(gs: Seq<i64>)
    ensures
        grad_lims(gs).0 <= 0 <= grad_lims(gs).1,
        forall|i: int| 0 <= i < gs.len() ==> grad_lims(gs).0 <= #[trigger] gs[i] <= grad_lims(gs).1,
    decreases gs.len(),
{
    if gs.len() > 0 {
        lemma_glims_hold(gs.drop_last());
        assert forall|i: int| 0 <= i < gs.len() implies grad_lims(gs).0 <= #[trigger] gs[i] <= grad_lims(gs).1 by {
            if i < gs.len() - 1 {
                assert(gs[i] == gs.drop_last()[i]);
            }
        }
    }
}

/// Type, cardinality and limits of each feature column.
fn column_tables(data: &Data) -> (res: (Vec<FeatType>, Vec<usize>, Vec<(i64, i64)>))
    requires
        data.wf(),
    ensures
        res.0@ == data.types_spec().take(data.nfeatures_spec() as int),
        res.1@ == data.cards_spec().take(data.nfeatures_spec() as int),
        res.2@ == data.limits_spec().take(data.nfeatures_spec() as int),
{
    let m = data.nfeatures();
    let mut ftypes: Vec<FeatType> = Vec::new();
    let mut cards: Vec<usize> = Vec::new();
    let mut limits: Vec<(i64, i64)> = Vec::new();
    let mut f: usize = 0;
    while f < m
        invariant
            f <= m,
            m == data.nfeatures_spec(),
            data.wf(),
            ftypes@ == data.types_spec().take(f as int),
            cards@ == data.cards_spec().take(f as int),
            limits@ == data.limits_spec().take(f as int),
        decreases m - f,
    {
        ftypes.push(data.feat_type(f));
        cards.push(data.feat_card(f));
        limits.push(data.feat_limits(f));
        f = f + 1;
        assert(ftypes@ =~= data.types_spec().take(f as int));
        assert(cards@ =~= data.cards_spec().take(f as int));
        assert(limits@ =~= data.limits_spec().take(f as int));
    }
    (ftypes, cards, limits)
}

/// `m` empty tables.
fn empty_tables<T>(m: usize) -> (v: Vec<Vec<T>>)
    ensures
        v@.len() == m,
        forall|a: int| 0 <= a < m ==> (#[trigger] v@[a])@.len() == 0,
{
    let mut v: Vec<Vec<T>> = Vec::new();
    let mut f: usize = 0;
    while f < m
        invariant
            f <= m,
            v@.len() == f,
            forall|a: int| 0 <= a < f ==> (#[trigger] v@[a])@.len() == 0,
        decreases m - f,
    {
        v.push(Vec::new());
        f = f + 1;
    }
    v
}

/// The values of `col` at the rows `sel`.
fn gather(col: &Vec<i64>, sel: &Vec<usize>) -> (v: Vec<i64>)
    requires
        forall|i: int| 0 <= i < sel@.len() ==> #[trigger] sel@[i] < col@.len(),
    ensures
        v@ == selected(col@, sel@),
{
    let mut v: Vec<i64> = Vec::new();
    let mut i: usize = 0;
    while i < sel.len()
        invariant
            i <= sel@.len(),
            forall|a: int| 0 <= a < sel@.len() ==> #[trigger] sel@[a] < col@.len(),
            v@ == selected(col@, sel@).take(i as int),
        decreases sel@.len() - i,
    {
        v.push(col[sel[i]]);
        i = i + 1;
        assert(v@ =~= selected(col@, sel@).take(i as int));
    }
    assert(selected(col@, sel@).take(sel@.len() as int) =~= selected(col@, sel@));
    v
}

/// Smallest and largest of 0 and the gradients.
fn grad_limits(gs: &Vec<i64>) -> (l: (i64, i64))
    ensures
        l == grad_lims(gs@),
{
    let mut lo: i64 = 0;
    let mut hi: i64 = 0;
    let mut i: usize = 0;
    while i < gs.len()
        invariant
            i <= gs@.len(),
            (lo, hi) == grad_lims(gs@.take(i as int)),
        decreases gs@.len() - i,
    {
        let g = gs[i];
        proof {
            assert(gs@.take(i + 1).drop_last() =~= gs@.take(i as int));
        }
        if g < lo {
            lo = g;
        }
        if g > hi {
            hi = g;
        }
        i = i + 1;
    }
    assert(gs@.take(gs@.len() as int) =~= gs@);
    (lo, hi)
}

} // verus!
