//! Fixed-size weighted histogram over a closed value range, used to pick
//! approximate quantiles as split candidates.
use vstd::prelude::*;

verus! {

/// Number of bins of the histograms that pick split candidates.
pub const NBINS: usize = 1024;

/// The bins after inserting each value of `vs` with the weight of the same
/// index in `ws`, starting from `nb` empty bins over `[lo, hi]`.
pub open spec fn hist(lo: int, hi: int, nb: nat, vs: Seq<i64>, ws: Seq<u128>) -> Seq<u128>
    decreases vs.len(),
{
    if vs.len() == 0 || ws.len() == 0 {
        Seq::new(nb, |i: int| 0u128)
    } else {
        let h = hist(lo, hi, nb, vs.drop_last(), ws.drop_last());
        let b = bin_of(lo, hi, nb, vs.last() as int) as int;
        h.update(b, (h[b] + ws.last()) as u128)
    }
}

/// Sum of the first `b` bins.
pub open spec fn cum(bins: Seq<u128>, b: nat) -> nat
    decreases b,
{
    if b == 0 || b > bins.len() {
        0
    } else {
        (cum(bins, (b - 1) as nat) + bins[b - 1]) as nat
    }
}

/// Bin of `v` among `nb` equal bins over `[lo, hi]`: bin `b` covers the
/// values from its lower edge up to, not including, its upper edge (the last
/// bin includes `hi`); values outside the range are clamped into it.
pub open spec fn bin_of(lo: int, hi: int, nb: nat, v: int) -> nat {
    if v <= lo || hi <= lo {
        0
    } else if v >= hi {
        (nb - 1) as nat
    } else {
        ((v - lo) * nb / (hi - lo)) as nat
    }
}

/// Lower edge of bin `b` of `nb` equal bins over `[lo, hi]`, rounded down,
/// which is the upper edge of bin `b - 1`: the threshold that separates the
/// bin from the bins below it.
pub open spec fn edge(lo: int, hi: int, nb: nat, b: nat) -> int {
    lo + b * (hi - lo) / (nb as int)
}

/// Bin `b` answers weight rank `r`: it is the first bin at which the running
/// weight reaches `r`, or the last bin when none does.
pub open spec fn answers_rank(bins: Seq<u128>, r: nat, b: nat) -> bool {
    &&& b < bins.len()
    &&& (cum(bins, b + 1) >= r || b == bins.len() - 1)
    &&& forall|c: nat| c < b ==> #[trigger] cum(bins, c + 1) < r
}

/// The rank thresholds are in ascending order.
pub open spec fn ascending_ranks(s: Seq<u128>) -> bool {
    forall|a: int, b: int| 0 <= a < b < s.len() ==> s[a] <= s[b]
}

pub proof fn lemma_cum_monotone(bins: Seq<u128>, a: nat, b: nat)
    requires
        a <= b <= bins.len(),
    ensures
        cum(bins, a) <= cum(bins, b),
    decreases b - a,
{
    if a < b {
        lemma_cum_monotone(bins, a, (b - 1) as nat);
    }
}

proof fn lemma_cum_update(bins: Seq<u128>, i: int, x: u128, b: nat)
    requires
        0 <= i < bins.len(),
        b <= bins.len(),
    ensures
        cum(bins.update(i, x), b) == if b > i {
            cum(bins, b) - bins[i] + x
        } else {
            cum(bins, b) as int
        },
    decreases b,
{
    if b > 0 {
        lemma_cum_update(bins, i, x, (b - 1) as nat);
    }
}

/// A histogram of `u128` weights in equal bins over `[lo, hi]`.
pub struct Binner {
    lo: i64,
    hi: i64,
    bins: Vec<u128>,
}

impl Binner {
    /// The weights of the bins.
    pub closed spec fn view(&self) -> Seq<u128> {
        self.bins@
    }

    pub closed spec fn lo(&self) -> int {
        self.lo as int
    }

    pub closed spec fn hi(&self) -> int {
        self.hi as int
    }

    /// Total weight inserted.
    pub open spec fn total(&self) -> nat {
        cum(self@, self@.len())
    }

    pub open spec fn wf(&self) -> bool {
        &&& 1 <= self@.len() <= u32::MAX
        &&& i64::MIN <= self.lo() <= self.hi() <= i64::MAX
        &&& self.total() <= u128::MAX
    }

    /// `nbins` empty bins over `[lims.0, lims.1]`.
    pub fn new(nbins: usize, lims: (i64, i64)) -> (b: Self)
        requires
            1 <= nbins <= u32::MAX,
            lims.0 <= lims.1,
        ensures
            b.wf(),
            b@ == Seq::new(nbins as nat, |i: int| 0u128),
            b.total() == 0,
            b.lo() == lims.0,
            b.hi() == lims.1,
    {
        let mut bins: Vec<u128> = Vec::new();
        let mut i: usize = 0;
        while i < nbins
            invariant
                i <= nbins,
                bins@ == Seq::new(i as nat, |j: int| 0u128),
                forall|c: nat| c <= i ==> #[trigger] cum(bins@, c) == 0,
            decreases nbins - i,
        {
            bins.push(0u128);
            i = i + 1;
            assert(bins@ =~= Seq::new(i as nat, |j: int| 0u128));
            assert forall|c: nat| c <= i implies #[trigger] cum(bins@, c) == 0 by {
                lemma_cum_zero(bins@, c);
            }
        }
        Binner { lo: lims.0, hi: lims.1, bins }
    }

    /// Bin that holds `v`.
    pub fn bin_index(&self, v: i64) -> (b: usize)
        requires
            self.wf(),
        ensures
            b == bin_of(self.lo(), self.hi(), self@.len(), v as int),
            b < self@.len(),
    {
        let nb = self.bins.len();
        if v <= self.lo || self.hi <= self.lo {
            0
        } else if v >= self.hi {
            nb - 1
        } else {
            let d = (self.hi as i128 - self.lo as i128) as u128;
            let t = (v as i128 - self.lo as i128) as u128;
            proof {
                assert(t * nb <= d * nb) by (nonlinear_arith)
                    requires
                        t <= d,
                ;
                assert(d * nb <= 0x1_0000_0000_0000_0000 * 0x1_0000_0000) by (nonlinear_arith)
                    requires
                        d <= 0x1_0000_0000_0000_0000,
                        nb <= 0x1_0000_0000,
                ;
                assert(((t * nb) as int) / (d as int) < nb as int) by (nonlinear_arith)
                    requires
                        t < d,
                        1 <= nb,
                ;
            }
            (t * (nb as u128) / d) as usize
        }
    }

    /// Lower edge of bin `b`, which is also the upper edge of bin `b - 1`:
    /// the value that stands for bin `b` as a split threshold. A split at
    /// the bin where a weight rank is reached keeps that bin's values above
    /// it, so the `<=` side holds only the bins before. It grows with `b`.
    pub fn bin_representative(&self, b: usize) -> (v: i64)
        requires
            self.wf(),
            b < self@.len(),
        ensures
            v == edge(self.lo(), self.hi(), self@.len(), b as nat),
    {
        let nb = self.bins.len();
        let d = (self.hi as i128 - self.lo as i128) as u128;
        proof {
            assert((b * d) as int <= nb * d) by (nonlinear_arith)
                requires
                    b < nb,
            ;
            assert(nb * d <= 0x1_0000_0000 * 0x1_0000_0000_0000_0000) by (nonlinear_arith)
                requires
                    d <= 0x1_0000_0000_0000_0000,
                    nb <= 0x1_0000_0000,
            ;
            assert((b * d) / (nb as int) <= d) by (nonlinear_arith)
                requires
                    b < nb,
                    (b * d) as int <= nb * d,
            ;
        }
        let t = (b as u128) * d / (nb as u128);
        (self.lo as i128 + t as i128) as i64
    }

    /// Adds weight `w` to the bin of `v`.
    pub fn insert(&mut self, v: i64, w: u128)
        requires
            old(self).wf(),
            old(self).total() + w <= u128::MAX,
        ensures
            final(self).wf(),
            final(self).lo() == old(self).lo(),
            final(self).hi() == old(self).hi(),
            final(self).total() == old(self).total() + w,
            final(self)@.len() == old(self)@.len(),
            final(self)@ == old(self)@.update(
                bin_of(old(self).lo(), old(self).hi(), old(self)@.len(), v as int) as int,
                (old(self)@[bin_of(old(self).lo(), old(self).hi(), old(self)@.len(), v as int) as int] + w) as u128,
            ),
    {
        let b = self.bin_index(v);
        proof {
            lemma_cum_update(self@, b as int, (self@[b as int] + w) as u128, self@.len());
            lemma_cum_monotone(self@, (b + 1) as nat, self@.len());
            lemma_cum_monotone(self@, b as nat, (b + 1) as nat);
        }
        let x = self.bins[b];
        self.bins[b] = x + w;
    }

    /// For each threshold of `ranks` (ascending), the first bin at which the
    /// running weight reaches it. One scan over the bins.
    pub fn rank_iter(&self, ranks: &Vec<u128>) -> (out: Vec<usize>)
        requires
            self.wf(),
            ascending_ranks(ranks@),
        ensures
            out@.len() == ranks@.len(),
            forall|a: int| 0 <= a < out@.len() ==> answers_rank(self@, ranks@[a] as nat, #[trigger] out@[a] as nat),
    {
        let nb = self.bins.len();
        let mut out: Vec<usize> = Vec::new();
        let mut b: usize = 0;
        let mut acc: u128 = self.bins[0];
        proof {
            assert(cum(self@, 1) == self@[0]) by {
                assert(cum(self@, 0) == 0);
            }
            lemma_cum_monotone(self@, 1, self@.len());
        }
        let mut j: usize = 0;
        while j < ranks.len()
            invariant
                self.wf(),
                nb == self@.len(),
                ascending_ranks(ranks@),
                j <= ranks@.len(),
                out@.len() == j,
                b < nb,
                acc == cum(self@, (b + 1) as nat),
                forall|a: int| 0 <= a < j ==> answers_rank(self@, ranks@[a] as nat, #[trigger] out@[a] as nat),
                forall|c: nat| c < b ==> #[trigger] cum(self@, c + 1) < (if j < ranks@.len() { ranks@[j as int] as nat } else { 0 }) || j == ranks@.len(),
            decreases ranks@.len() - j,
        {
            let r = ranks[j];
            while acc < r && b + 1 < nb
                invariant
                    self.wf(),
                    nb == self@.len(),
                    b < nb,
                    acc == cum(self@, (b + 1) as nat),
                    forall|c: nat| c < b ==> #[trigger] cum(self@, c + 1) < r,
                decreases nb - b,
            {
                proof {
                    lemma_cum_monotone(self@, (b + 2) as nat, self@.len());
                }
                b = b + 1;
                acc = acc + self.bins[b];
            }
            out.push(b);
            proof {
                assert(answers_rank(self@, r as nat, b as nat));
                if j + 1 < ranks@.len() {
                    assert(r <= ranks@[j + 1]);
                }
            }
            j = j + 1;
        }
        out
    }
}

proof fn lemma_cum_zero(bins: Seq<u128>, c: nat)
    requires
        forall|j: int| 0 <= j < bins.len() ==> bins[j] == 0,
    ensures
        cum(bins, c) == 0,
    decreases c,
{
    if c > 0 {
        lemma_cum_zero(bins, (c - 1) as nat);
    }
}

} // verus!
