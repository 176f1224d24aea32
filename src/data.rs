//! The tabular store: named columns of fixed-point values, the last one the
//! target, with per-column limits, types and categorical cardinalities.
use vstd::prelude::*;

verus! {

/// One unit of the fixed-point number type: a value `v` stands for
/// `v / FIXED_ONE`.
pub const FIXED_ONE: i64 = 65536;

/// Denominator of the fractions in [`Config`]: parts per million.
pub const PARTS: u64 = 1000000;

/// Semantic type of a column.
#[derive(Debug, Clone, Copy, PartialEq, Eq, Structural)]
pub enum FeatType {
    LoCardCat,
    HiCardCat,
    Numerical,
}

/// Options of the store and of each dataset round.
pub struct Config {
    pub csv_has_header: bool,
    pub csv_delimiter: u8,
    /// Columns whose values are categories (non-negative whole numbers).
    pub categorical_features: Vec<usize>,
    /// Cap on split candidates per feature; a categorical column with more
    /// categories than this is high-cardinality.
    pub max_nbins: usize,
    /// Share of rows sampled per round, in parts per million.
    pub example_fraction: u32,
    /// Share of feature columns sampled per round, in parts per million.
    pub feature_fraction: u32,
    pub random_seed: u64,
}

impl Config {
    /// Header row, comma separated, no categorical columns, 16 bins, every
    /// row and every feature, seed 1.
    pub fn new() -> (c: Config)
        ensures
            c.csv_has_header,
            c.csv_delimiter == 44,
            c.categorical_features@.len() == 0,
            c.max_nbins == 16,
            c.example_fraction == PARTS,
            c.feature_fraction == PARTS,
            c.random_seed == 1,
    {
        Config {
            csv_has_header: true,
            csv_delimiter: 44u8,
            categorical_features: Vec::new(),
            max_nbins: 16,
            example_fraction: 1000000u32,
            feature_fraction: 1000000u32,
            random_seed: 1,
        }
    }
}

/// `ppm` millionths of `n`, rounded to the nearest whole number (halves up).
pub open spec fn fraction_of_spec(n: nat, ppm: nat) -> nat {
    (n * ppm + 500000) / 1000000
}

/// `ppm` millionths of `n`, rounded to the nearest whole number.
pub fn fraction_of(n: usize, ppm: u32) -> (k: usize)
    requires
        ppm <= PARTS,
    ensures
        k == fraction_of_spec(n as nat, ppm as nat),
        k <= n,
{
    proof {
        assert(n * ppm + 500000 <= n * 1000000 + 500000) by (nonlinear_arith)
            requires
                ppm <= 1000000,
        ;
        assert((n * ppm + 500000) / 1000000 <= n) by (nonlinear_arith)
            requires
                n * ppm + 500000 <= n * 1000000 + 500000,
        ;
        assert(n * ppm <= 0x1_0000_0000_0000_0000 * 1000000) by (nonlinear_arith)
            requires
                n <= 0x1_0000_0000_0000_0000,
                ppm <= 1000000,
        ;
    }
    ((n as u128 * ppm as u128 + 500000) / 1000000) as usize
}

/// The values of each column.
pub open spec fn column_views(cols: Seq<Vec<i64>>) -> Seq<Seq<i64>> {
    cols.map_values(|c: Vec<i64>| c@)
}

/// A categorical value is a non-negative whole number below `u32::MAX`.
pub open spec fn valid_category(v: i64) -> bool {
    v >= 0 && v % FIXED_ONE == 0 && v / FIXED_ONE < u32::MAX
}

/// The category that a valid categorical value stands for.
pub open spec fn category_of(v: i64) -> nat {
    (v / FIXED_ONE) as nat
}

/// Category id of a categorical value.
pub fn into_cat(x: i64) -> (c: u32)
    requires
        valid_category(x),
    ensures
        c == category_of(x),
{
    ((x as u64) / (FIXED_ONE as u64)) as u32
}

/// Smallest value of `s`, and 0 when `s` is empty.
pub open spec fn seq_min(s: Seq<i64>) -> i64
    decreases s.len(),
{
    if s.len() == 0 {
        0
    } else if s.len() == 1 || s.last() < seq_min(s.drop_last()) {
        s.last()
    } else {
        seq_min(s.drop_last())
    }
}

/// Largest value of `s`, and 0 when `s` is empty.
pub open spec fn seq_max(s: Seq<i64>) -> i64
    decreases s.len(),
{
    if s.len() == 0 {
        0
    } else if s.len() == 1 || s.last() > seq_max(s.drop_last()) {
        s.last()
    } else {
        seq_max(s.drop_last())
    }
}

/// One more than the largest category in `s`, and 0 when `s` is empty.
pub open spec fn cardinality(s: Seq<i64>) -> nat
    decreases s.len(),
{
    if s.len() == 0 {
        0
    } else {
        let c = category_of(s.last()) + 1;
        let p = cardinality(s.drop_last());
        if c > p {
            c
        } else {
            p
        }
    }
}

pub proof fn lemma_min_le_max(s: Seq<i64>)
    ensures
        seq_min(s) <= seq_max(s),
        forall|i: int| 0 <= i < s.len() ==> seq_min(s) <= #[trigger] s[i] <= seq_max(s),
    decreases s.len(),
{
    if s.len() > 1 {
        lemma_min_le_max(s.drop_last());
        assert forall|i: int| 0 <= i < s.len() implies seq_min(s) <= #[trigger] s[i] <= seq_max(s) by {
            if i < s.len() - 1 {
                assert(s[i] == s.drop_last()[i]);
            }
        }
    }
}

/// Every category of a categorical column lies below its cardinality, and
/// the cardinality fits a `u32`.
pub proof fn lemma_categories_below_card(s: Seq<i64>)
    requires
        forall|i: int| 0 <= i < s.len() ==> valid_category(#[trigger] s[i]),
    ensures
        cardinality(s) <= u32::MAX,
        forall|i: int| 0 <= i < s.len() ==> category_of(#[trigger] s[i]) < cardinality(s),
    decreases s.len(),
{
    if s.len() > 0 {
        let t = s.drop_last();
        assert forall|i: int| 0 <= i < t.len() implies valid_category(#[trigger] t[i]) by {
            assert(t[i] == s[i]);
        }
        lemma_categories_below_card(t);
        assert(valid_category(s[s.len() - 1]));
        assert forall|i: int| 0 <= i < s.len() implies category_of(#[trigger] s[i]) < cardinality(s) by {
            if i < s.len() - 1 {
                assert(s[i] == t[i]);
            }
        }
    }
}

/// Row `r` holds a value that is no category in some categorical column.
pub open spec fn bad_row(cols: Seq<Seq<i64>>, cat: Seq<usize>, r: int) -> bool {
    exists|j: int| 0 <= j < cols.len() && cat.contains(j as usize) && !valid_category(#[trigger] cols[j][r])
}

/// Field `j` of row `r` is the first categorical field of the row whose
/// value is no category.
pub open spec fn first_bad_field(cols: Seq<Seq<i64>>, cat: Seq<usize>, r: int, j: int) -> bool {
    &&& cat.contains(j as usize)
    &&& !valid_category(cols[j][r])
    &&& forall|a: int| 0 <= a < j ==> !(cat.contains(a as usize) && !valid_category(#[trigger] cols[a][r]))
}

/// Type of a column from whether it is categorical and its cardinality.
pub open spec fn type_of(is_cat: bool, card: nat, max_nbins: nat) -> FeatType {
    if !is_cat {
        FeatType::Numerical
    } else if card > max_nbins {
        FeatType::HiCardCat
    } else {
        FeatType::LoCardCat
    }
}

/// Why a set of columns makes no store.
#[derive(Debug, Clone, Copy, PartialEq, Eq, Structural)]
pub enum DataError {
    /// There is not even a target column.
    NoColumns,
    /// The names are not one per column.
    NameCount,
    /// This column's length differs from the first column's.
    RaggedColumn(usize),
    /// This record holds this value, negative, fractional or too large, in a
    /// categorical column (the first such field of the record).
    InvalidCategorical(usize, i64),
}

/// The store. The last column is the target; the ones before it are the
/// features.
pub struct Data {
    names: Vec<String>,
    nexamples: usize,
    features: Vec<Vec<i64>>,
    limits: Vec<(i64, i64)>,
    ftypes: Vec<FeatType>,
    cards: Vec<usize>,
}

impl Data {
    /// The columns, target last.
    pub closed spec fn columns(&self) -> Seq<Seq<i64>> {
        column_views(self.features@)
    }

    pub closed spec fn nexamples_spec(&self) -> nat {
        self.nexamples as nat
    }

    pub closed spec fn limits_spec(&self) -> Seq<(i64, i64)> {
        self.limits@
    }

    pub closed spec fn types_spec(&self) -> Seq<FeatType> {
        self.ftypes@
    }

    pub closed spec fn cards_spec(&self) -> Seq<usize> {
        self.cards@
    }

    pub closed spec fn names_spec(&self) -> Seq<String> {
        self.names@
    }

    /// Number of feature columns (all but the target).
    pub open spec fn nfeatures_spec(&self) -> nat {
        (self.columns().len() - 1) as nat
    }

    pub open spec fn wf(&self) -> bool {
        &&& self.columns().len() >= 1
        &&& self.names_spec().len() == self.columns().len()
        &&& self.limits_spec().len() == self.columns().len()
        &&& self.types_spec().len() == self.columns().len()
        &&& self.cards_spec().len() == self.columns().len()
        &&& forall|j: int| 0 <= j < self.columns().len() ==> #[trigger] self.columns()[j].len() == self.nexamples_spec()
        &&& forall|j: int| 0 <= j < self.columns().len() ==> #[trigger] self.limits_spec()[j] == (seq_min(self.columns()[j]), seq_max(self.columns()[j]))
        &&& forall|j: int| 0 <= j < self.columns().len() ==> (#[trigger] self.types_spec()[j] != FeatType::Numerical ==> (forall|r: int| 0 <= r < self.nexamples_spec() ==> valid_category(#[trigger] self.columns()[j][r])) && self.cards_spec()[j] == cardinality(self.columns()[j]))
        &&& forall|j: int| 0 <= j < self.columns().len() ==> (#[trigger] self.types_spec()[j] == FeatType::Numerical ==> self.cards_spec()[j] == 0)
    }

    /// Builds the store from columns of fixed-point values, the target last.
    /// `names` is empty (no header) or holds one name per column. A column
    /// listed in `config.categorical_features` is categorical; it is
    /// high-cardinality when it has more than `config.max_nbins` categories.
    pub fn from_columns(config: &Config, names: Vec<String>, columns: Vec<Vec<i64>>) -> (res: Result<Data, DataError>)
        ensures
            columns@.len() == 0 ==> res == Err::<Data, DataError>(DataError::NoColumns),
            columns@.len() > 0 && names@.len() != 0 && names@.len() != columns@.len() ==> res == Err::<Data, DataError>(DataError::NameCount),
            res matches Err(DataError::RaggedColumn(j)) ==> 0 < j < columns@.len() && columns@[j as int]@.len() != columns@[0]@.len()
                && forall|a: int| 0 < a < j ==> #[trigger] columns@[a]@.len() == columns@[0]@.len(),
            res matches Err(DataError::InvalidCategorical(r, v)) ==> (forall|a: int| 0 <= a < columns@.len() ==> #[trigger] columns@[a]@.len() == columns@[0]@.len())
                && r < columns@[0]@.len()
                && bad_row(column_views(columns@), config.categorical_features@, r as int)
                && (forall|q: int| 0 <= q < r ==> !#[trigger] bad_row(column_views(columns@), config.categorical_features@, q))
                && exists|j: int| 0 <= j < columns@.len() && #[trigger] first_bad_field(column_views(columns@), config.categorical_features@, r as int, j) && columns@[j]@[r as int] == v,
            res is Ok <==> (columns@.len() > 0 && (names@.len() == 0 || names@.len() == columns@.len())
                && (forall|a: int| 0 <= a < columns@.len() ==> #[trigger] columns@[a]@.len() == columns@[0]@.len())
                && forall|q: int| 0 <= q < columns@[0]@.len() ==> !#[trigger] bad_row(column_views(columns@), config.categorical_features@, q)),
            res matches Ok(d) ==> d.wf() && d.columns() == column_views(columns@)
                && d.nexamples_spec() == columns@[0]@.len()
                && (names@.len() == columns@.len() ==> d.names_spec() == names@)
                && (names@.len() == 0 ==> forall|j: int| 0 <= j < columns@.len() ==> (#[trigger] d.names_spec()[j])@ == Seq::<char>::empty())
                && (forall|j: int| 0 <= j < columns@.len() ==> #[trigger] d.types_spec()[j] == type_of(config.categorical_features@.contains(j as usize), cardinality(columns@[j]@), config.max_nbins as nat)),
    {
        let ghost cols = column_views(columns@);
        let ncols = columns.len();
        if ncols == 0 {
            return Err(DataError::NoColumns);
        }
        if names.len() != 0 && names.len() != ncols {
            return Err(DataError::NameCount);
        }
        let nrows = columns[0].len();
        let mut j: usize = 1;
        while j < ncols
            invariant
                1 <= j <= ncols,
                ncols == columns@.len(),
                names@.len() == 0 || names@.len() == columns@.len(),
                nrows == columns@[0]@.len(),
                forall|a: int| 0 <= a < j ==> #[trigger] columns@[a]@.len() == nrows,
            decreases ncols - j,
        {
            if columns[j].len() != nrows {
                return Err(DataError::RaggedColumn(j));
            }
            j = j + 1;
        }
        let is_cat = categorical_mask(&config.categorical_features, ncols);
        let mut r: usize = 0;
        while r < nrows
            invariant
                r <= nrows,
                ncols == columns@.len(),
                names@.len() == 0 || names@.len() == columns@.len(),
                nrows == columns@[0]@.len(),
                cols == column_views(columns@),
                is_cat@.len() == ncols,
                forall|a: int| 0 <= a < ncols ==> #[trigger] is_cat@[a] == config.categorical_features@.contains(a as usize),
                forall|a: int| 0 <= a < ncols ==> #[trigger] columns@[a]@.len() == nrows,
                forall|q: int| 0 <= q < r ==> !#[trigger] bad_row(cols, config.categorical_features@, q),
            decreases nrows - r,
        {
            let mut c: usize = 0;
            while c < ncols
                invariant
                    c <= ncols,
                    r < nrows,
                    ncols == columns@.len(),
                    nrows == columns@[0]@.len(),
                    names@.len() == 0 || names@.len() == columns@.len(),
                    forall|q: int| 0 <= q < r ==> !#[trigger] bad_row(cols, config.categorical_features@, q),
                    cols == column_views(columns@),
                    is_cat@.len() == ncols,
                    forall|a: int| 0 <= a < ncols ==> #[trigger] is_cat@[a] == config.categorical_features@.contains(a as usize),
                    forall|a: int| 0 <= a < ncols ==> #[trigger] columns@[a]@.len() == nrows,
                    forall|a: int| 0 <= a < c ==> !(config.categorical_features@.contains(a as usize) && !valid_category(#[trigger] cols[a][r as int])),
                decreases ncols - c,
            {
                let v = columns[c][r];
                if is_cat[c] && (v < 0 || (v as u64) % (FIXED_ONE as u64) != 0 || (v as u64) / (FIXED_ONE as u64) >= u32::MAX as u64) {
                    proof {
                        assert(cols[c as int][r as int] == v);
                        assert(bad_row(cols, config.categorical_features@, r as int));
                        assert(first_bad_field(cols, config.categorical_features@, r as int, c as int));
                    }
                    return Err(DataError::InvalidCategorical(r, v));
                }
                c = c + 1;
            }
            proof {
                assert forall|a: int| 0 <= a < cols.len() && config.categorical_features@.contains(a as usize) implies valid_category(#[trigger] cols[a][r as int]) by {}
            }
            r = r + 1;
        }
        let mut limits: Vec<(i64, i64)> = Vec::new();
        let mut ftypes: Vec<FeatType> = Vec::new();
        let mut cards: Vec<usize> = Vec::new();
        let mut k: usize = 0;
        while k < ncols
            invariant
                k <= ncols,
                ncols == columns@.len(),
                nrows == columns@[0]@.len(),
                cols == column_views(columns@),
                is_cat@.len() == ncols,
                forall|a: int| 0 <= a < ncols ==> #[trigger] is_cat@[a] == config.categorical_features@.contains(a as usize),
                forall|a: int| 0 <= a < ncols ==> #[trigger] columns@[a]@.len() == nrows,
                forall|q: int| 0 <= q < nrows ==> !#[trigger] bad_row(cols, config.categorical_features@, q),
                limits@.len() == k,
                ftypes@.len() == k,
                cards@.len() == k,
                forall|a: int| 0 <= a < k ==> #[trigger] limits@[a] == (seq_min(cols[a]), seq_max(cols[a])),
                forall|a: int| 0 <= a < k ==> #[trigger] ftypes@[a] == type_of(is_cat@[a], cardinality(cols[a]), config.max_nbins as nat),
                forall|a: int| 0 <= a < k ==> #[trigger] cards@[a] == if is_cat@[a] { cardinality(cols[a]) } else { 0 },
            decreases ncols - k,
        {
            let (lo, hi) = column_limits(&columns[k]);
            limits.push((lo, hi));
            if is_cat[k] {
                proof {
                    assert forall|q: int| 0 <= q < columns@[k as int]@.len() implies valid_category(#[trigger] columns@[k as int]@[q]) by {
                        assert(!bad_row(cols, config.categorical_features@, q));
                        assert(cols[k as int][q] == columns@[k as int]@[q]);
                    }
                }
                let card = column_cardinality(&columns[k]);
                cards.push(card);
                if card > config.max_nbins {
                    ftypes.push(FeatType::HiCardCat);
                } else {
                    ftypes.push(FeatType::LoCardCat);
                }
            } else {
                cards.push(0);
                ftypes.push(FeatType::Numerical);
            }
            k = k + 1;
        }
        let names = if names.len() == 0 {
            empty_names(ncols)
        } else {
            names
        };
        let d = Data { names, nexamples: nrows, features: columns, limits, ftypes, cards };
        proof {
            assert forall|a: int| 0 <= a < ncols && #[trigger] d.types_spec()[a] != FeatType::Numerical implies (forall|q: int| 0 <= q < d.nexamples_spec() ==> valid_category(#[trigger] d.columns()[a][q])) && d.cards_spec()[a] == cardinality(d.columns()[a]) by {
                assert forall|q: int| 0 <= q < d.nexamples_spec() implies valid_category(#[trigger] d.columns()[a][q]) by {
                    assert(!bad_row(cols, config.categorical_features@, q));
                }
            }
        }
        Ok(d)
    }

    /// Number of feature columns (the target excluded).
    pub fn nfeatures(&self) -> (n: usize)
        requires
            self.wf(),
        ensures
            n == self.nfeatures_spec(),
    {
        self.features.len() - 1
    }

    /// Number of rows.
    pub fn nexamples(&self) -> (n: usize)
        ensures
            n == self.nexamples_spec(),
    {
        self.nexamples
    }

    /// Name of column `feature` (empty without a header).
    pub fn feat_name(&self, feature: usize) -> (s: &String)
        requires
            self.wf(),
            feature < self.columns().len(),
        ensures
            *s == self.names_spec()[feature as int],
    {
        &self.names[feature]
    }

    /// Smallest and largest value of column `feat_id`.
    pub fn feat_limits(&self, feat_id: usize) -> (l: (i64, i64))
        requires
            self.wf(),
            feat_id < self.columns().len(),
        ensures
            l == (seq_min(self.columns()[feat_id as int]), seq_max(self.columns()[feat_id as int])),
    {
        self.limits[feat_id]
    }

    /// Type of column `feat_id`.
    pub fn feat_type(&self, feat_id: usize) -> (t: FeatType)
        requires
            self.wf(),
            feat_id < self.columns().len(),
        ensures
            t == self.types_spec()[feat_id as int],
    {
        self.ftypes[feat_id]
    }

    /// Number of categories of column `feat_id` (0 for a numerical column).
    pub fn feat_card(&self, feat_id: usize) -> (c: usize)
        requires
            self.wf(),
            feat_id < self.columns().len(),
        ensures
            c == self.cards_spec()[feat_id as int],
    {
        self.cards[feat_id]
    }

    /// Index of the target column: the last one.
    pub fn target_id(&self) -> (t: usize)
        requires
            self.wf(),
        ensures
            t == self.nfeatures_spec(),
    {
        self.features.len() - 1
    }

    /// Values of column `feat_id`.
    pub fn get_feature(&self, feat_id: usize) -> (v: &Vec<i64>)
        requires
            self.wf(),
            feat_id < self.columns().len(),
        ensures
            v@ == self.columns()[feat_id as int],
    {
        &self.features[feat_id]
    }

    /// Values of the target column.
    pub fn get_target(&self) -> (v: &Vec<i64>)
        requires
            self.wf(),
        ensures
            v@ == self.columns()[self.nfeatures_spec() as int],
    {
        &self.features[self.features.len() - 1]
    }
}

/// For each column index below `ncols`, whether it is listed in `cat`.
fn categorical_mask(cat: &Vec<usize>, ncols: usize) -> (m: Vec<bool>)
    ensures
        m@.len() == ncols,
        forall|a: int| 0 <= a < ncols ==> #[trigger] m@[a] == cat@.contains(a as usize),
{
    let mut m: Vec<bool> = Vec::new();
    let mut a: usize = 0;
    while a < ncols
        invariant
            a <= ncols,
            m@.len() == a,
            forall|b: int| 0 <= b < a ==> #[trigger] m@[b] == cat@.contains(b as usize),
        decreases ncols - a,
    {
        let mut found = false;
        let mut i: usize = 0;
        while i < cat.len()
            invariant
                i <= cat@.len(),
                found == exists|t: int| 0 <= t < i && cat@[t] == a,
            decreases cat@.len() - i,
        {
            if cat[i] == a {
                found = true;
            }
            i = i + 1;
        }
        m.push(found);
        a = a + 1;
    }
    m
}

/// `ncols` empty names.
fn empty_names(ncols: usize) -> (v: Vec<String>)
    ensures
        v@.len() == ncols,
        forall|a: int| 0 <= a < ncols ==> (#[trigger] v@[a])@ == Seq::<char>::empty(),
{
    let mut v: Vec<String> = Vec::new();
    let mut a: usize = 0;
    while a < ncols
        invariant
            a <= ncols,
            v@.len() == a,
            forall|b: int| 0 <= b < a ==> (#[trigger] v@[b])@ == Seq::<char>::empty(),
        decreases ncols - a,
    {
        v.push(String::new());
        a = a + 1;
    }
    v
}

/// Smallest and largest value of a column (0 and 0 for an empty one).
fn column_limits(col: &Vec<i64>) -> (l: (i64, i64))
    ensures
        l == (seq_min(col@), seq_max(col@)),
{
    let mut lo: i64 = 0;
    let mut hi: i64 = 0;
    let mut i: usize = 0;
    while i < col.len()
        invariant
            i <= col@.len(),
            lo == seq_min(col@.take(i as int)),
            hi == seq_max(col@.take(i as int)),
        decreases col@.len() - i,
    {
        let v = col[i];
        proof {
            assert(col@.take(i + 1).drop_last() =~= col@.take(i as int));
        }
        if i == 0 || v < lo {
            lo = v;
        }
        if i == 0 || v > hi {
            hi = v;
        }
        i = i + 1;
    }
    proof {
        assert(col@.take(col@.len() as int) =~= col@);
    }
    (lo, hi)
}

/// One more than the largest category of a categorical column.
fn column_cardinality(col: &Vec<i64>) -> (c: usize)
    requires
        forall|q: int| 0 <= q < col@.len() ==> valid_category(#[trigger] col@[q]),
    ensures
        c == cardinality(col@),
{
    let mut card: usize = 0;
    let mut i: usize = 0;
    while i < col.len()
        invariant
            i <= col@.len(),
            forall|q: int| 0 <= q < col@.len() ==> valid_category(#[trigger] col@[q]),
            card == cardinality(col@.take(i as int)),
        decreases col@.len() - i,
    {
        let v = col[i];
        proof {
            assert(col@.take(i + 1).drop_last() =~= col@.take(i as int));
            assert(v >= 0);
        }
        let c = ((v as u64) / (FIXED_ONE as u64)) as usize + 1;
        assert(c == category_of(v) + 1);
        if c > card {
            card = c;
        }
        i = i + 1;
    }
    proof {
        assert(col@.take(col@.len() as int) =~= col@);
    }
    card
}

} // verus!
