//! Per-bucket bitsets over the sampled rows, and the transform that turns
//! "in bucket k" indicators into nested "in bucket at most k" indicators.
use vstd::prelude::*;
use crate::store::{BitBlockStore, SliceRange, blocks_for, lemma_block_index};

verus! {

/// No two ranges of `rs` share a block.
pub open spec fn pairwise_disjoint(rs: Seq<SliceRange>) -> bool {
    forall|a: int, b: int| 0 <= a < rs.len() && 0 <= b < rs.len() && a != b ==> #[trigger] rs[a].disjoint(#[trigger] rs[b])
}

/// Every range of `rs` lies in the arena and has `nblocks` blocks.
pub open spec fn all_held(s: &BitBlockStore, rs: Seq<SliceRange>, nblocks: nat) -> bool {
    forall|a: int| 0 <= a < rs.len() ==> s.holds(#[trigger] rs[a]) && rs[a].nblocks == nblocks
}

/// `q` shares no block with any range of `rs`.
pub open spec fn apart_from(q: SliceRange, rs: Seq<SliceRange>) -> bool {
    forall|a: int| 0 <= a < rs.len() ==> q.disjoint(#[trigger] rs[a])
}

/// Block `j` lies in none of the ranges `rs`.
pub open spec fn outside_all(j: int, rs: Seq<SliceRange>) -> bool {
    forall|a: int| 0 <= a < rs.len() ==> j < #[trigger] rs[a].start || j >= rs[a].start + rs[a].nblocks
}

/// Bit `i` is set in one of the ranges `rs[0..=k]`.
pub open spec fn any_upto(s: &BitBlockStore, rs: Seq<SliceRange>, k: int, i: nat) -> bool {
    exists|j: int| 0 <= j <= k && #[trigger] s.bit(rs[j], i)
}

/// One bitset of `nexamples` bits per bucket `0..card`: bit `i` of bitset `k`
/// is set when row `i` falls in bucket `k` (`cats[i] == k`). Rows whose bucket
/// is `card` or more set no bit.
pub fn construct_bitvecs(
    store: &mut BitBlockStore,
    nexamples: usize,
    card: usize,
    cats: &Vec<usize>,
) -> (rs: Vec<SliceRange>)
    requires
        cats@.len() == nexamples,
    ensures
        rs@.len() == card,
        all_held(final(store), rs@, blocks_for(nexamples as nat)),
        pairwise_disjoint(rs@),
        final(store)@.len() == old(store)@.len() + card * blocks_for(nexamples as nat),
        final(store)@.subrange(0, old(store)@.len() as int) == old(store)@,
        forall|a: int| 0 <= a < rs@.len() ==> #[trigger] rs@[a].start >= old(store)@.len(),
        forall|k: int, i: nat|
            0 <= k < card && i < rs@[k].nbits() ==> #[trigger] final(store).bit(rs@[k], i) == (i
                < nexamples && cats@[i as int] == k),
{
    let ghost w = blocks_for(nexamples as nat);
    let ghost base = old(store)@.len();
    let mut rs: Vec<SliceRange> = Vec::new();
    let mut c: usize = 0;
    while c < card
        invariant
            c <= card,
            rs@.len() == c,
            w == blocks_for(nexamples as nat),
            base == old(store)@.len(),
            store@.len() == base + c * w,
            store@.subrange(0, base as int) == old(store)@,
            all_held(store, rs@, w),
            pairwise_disjoint(rs@),
            forall|a: int| 0 <= a < rs@.len() ==> #[trigger] rs@[a].start >= base,
            forall|k: int, i: nat| 0 <= k < c && i < rs@[k].nbits() ==> !#[trigger] store.bit(rs@[k], i),
        decreases card - c,
    {
        proof {
            assert(c * w + w <= card * w) by (nonlinear_arith)
                requires
                    c < card,
            ;
        }
        let ghost prev = *store;
        let ghost before = store@;
        let r = store.alloc_zero_bits(nexamples);
        proof {
            assert forall|k: int, i: nat| 0 <= k < c && i < rs@[k].nbits() implies !#[trigger] store.bit(rs@[k], i) by {
                lemma_block_index(i, rs@[k].nblocks as nat);
                assert(prev.holds(rs@[k]));
                assert(!prev.bit(rs@[k], i));
                assert(store@.subrange(0, before.len() as int)[rs@[k].start + i / 64] == before[rs@[k].start + i / 64]);
            }
            assert(store@.subrange(0, base as int) =~= before.subrange(0, base as int));
            assert(c * w + w == (c + 1) * w) by (nonlinear_arith);
        }
        rs.push(r);
        c = c + 1;
    }
    let mut i: usize = 0;
    while i < nexamples
        invariant
            i <= nexamples,
            cats@.len() == nexamples,
            rs@.len() == card,
            w == blocks_for(nexamples as nat),
            base == old(store)@.len(),
            store@.len() == base + card * w,
            store@.subrange(0, base as int) == old(store)@,
            all_held(store, rs@, w),
            pairwise_disjoint(rs@),
            forall|a: int| 0 <= a < rs@.len() ==> #[trigger] rs@[a].start >= base,
            forall|k: int, j: nat|
                0 <= k < card && j < rs@[k].nbits() ==> #[trigger] store.bit(rs@[k], j) == (j < i
                    && cats@[j as int] == k),
        decreases nexamples - i,
    {
        let cat = cats[i];
        if cat < card {
            let ghost before = *store;
            proof {
                assert(i < rs@[cat as int].nbits()) by (nonlinear_arith)
                    requires
                        i < nexamples,
                        rs@[cat as int].nblocks == w,
                        w == (nexamples + 63) / 64,
                ;
            }
            store.enable_bit(rs[cat], i);
            proof {
                assert forall|k: int, j: nat|
                    0 <= k < card && j < rs@[k].nbits() implies #[trigger] store.bit(rs@[k], j) == (j < i + 1
                        && cats@[j as int] == k) by {
                    if k != cat {
                        assert(rs@[k].disjoint(rs@[cat as int]));
                        assert(before.bit(rs@[k], j) == store.bit(rs@[k], j));
                    }
                }
                assert forall|a: int| 0 <= a < base implies store@.subrange(0, base as int)[a] == old(store)@[a] by {
                    assert(before@.subrange(0, base as int)[a] == old(store)@[a]);
                    assert(rs@[cat as int].start >= base);
                    assert(store@[a] == before@[a]);
                }
                assert(store@.subrange(0, base as int) =~= old(store)@);
            }
        }
        i = i + 1;
    }
    rs
}

/// Prefix-or sweep: bitset `k` becomes the union of bitsets `0..=k`. The
/// sweep runs from the lowest bucket up, or-ing each result into the next.
pub fn transform_bitvecs_to_ord(store: &mut BitBlockStore, rs: &Vec<SliceRange>)
    requires
        pairwise_disjoint(rs@),
        rs@.len() > 0 ==> all_held(old(store), rs@, rs@[0].nblocks as nat),
    ensures
        final(store)@.len() == old(store)@.len(),
        forall|k: int, i: nat|
            0 <= k < rs@.len() && i < rs@[k].nbits() ==> #[trigger] final(store).bit(rs@[k], i) == any_upto(old(store), rs@, k, i),
        forall|q: SliceRange, j: nat|
            old(store).holds(q) && j < q.nbits() && apart_from(q, rs@) ==> #[trigger] final(store).bit(q, j) == old(store).bit(q, j),
        forall|j: int| 0 <= j < old(store)@.len() && outside_all(j, rs@) ==> #[trigger] final(store)@[j] == old(store)@[j],
{
    let ghost s0 = *store;
    let m = rs.len();
    if m == 0 {
        return;
    }
    let ghost nb = rs@[0].nblocks as nat;
    proof {
        assert forall|k: int, i: nat| 0 <= k < 1 && i < rs@[k].nbits() implies #[trigger] store.bit(rs@[k], i) == any_upto(&s0, rs@, k, i) by {
            if store.bit(rs@[k], i) {
                assert(s0.bit(rs@[0], i));
            }
        }
    }
    let mut k: usize = 1;
    while k < m
        invariant
            1 <= k <= m,
            m == rs@.len(),
            nb == rs@[0].nblocks,
            pairwise_disjoint(rs@),
            all_held(&s0, rs@, nb),
            store@.len() == s0@.len(),
            forall|t: int, i: nat|
                0 <= t < k && i < rs@[t].nbits() ==> #[trigger] store.bit(rs@[t], i) == any_upto(&s0, rs@, t, i),
            forall|t: int, i: nat|
                k <= t < m && i < rs@[t].nbits() ==> #[trigger] store.bit(rs@[t], i) == s0.bit(rs@[t], i),
            forall|q: SliceRange, j: nat|
                s0.holds(q) && j < q.nbits() && apart_from(q, rs@) ==> #[trigger] store.bit(q, j) == s0.bit(q, j),
            forall|j: int| 0 <= j < s0@.len() && outside_all(j, rs@) ==> #[trigger] store@[j] == s0@[j],
        decreases m - k,
    {
        let ghost before = *store;
        assert(rs@[k as int].disjoint(rs@[k - 1]));
        store.or_assign(rs[k], rs[k - 1]);
        proof {
            assert forall|t: int, i: nat|
                0 <= t < k + 1 && i < rs@[t].nbits() implies #[trigger] store.bit(rs@[t], i) == any_upto(&s0, rs@, t, i) by {
                if t == k {
                    assert(before.bit(rs@[k - 1], i) == any_upto(&s0, rs@, k - 1, i));
                    if any_upto(&s0, rs@, t, i) {
                        let j = choose|j: int| 0 <= j <= t && #[trigger] s0.bit(rs@[j], i);
                        if j < t {
                            assert(any_upto(&s0, rs@, k - 1, i));
                        }
                    }
                    if store.bit(rs@[t], i) {
                        if before.bit(rs@[t], i) {
                            assert(s0.bit(rs@[t], i));
                        } else {
                            let j = choose|j: int| 0 <= j <= k - 1 && #[trigger] s0.bit(rs@[j], i);
                            assert(s0.bit(rs@[j], i));
                        }
                    }
                } else {
                    assert(rs@[t].disjoint(rs@[k as int]));
                }
            }
            assert forall|t: int, i: nat|
                k + 1 <= t < m && i < rs@[t].nbits() implies #[trigger] store.bit(rs@[t], i) == s0.bit(rs@[t], i) by {
                assert(rs@[t].disjoint(rs@[k as int]));
            }
            assert forall|q: SliceRange, j: nat|
                s0.holds(q) && j < q.nbits() && apart_from(q, rs@) implies #[trigger] store.bit(q, j) == s0.bit(q, j) by {
                assert(q.disjoint(rs@[k as int]));
            }
            assert forall|j: int| 0 <= j < s0@.len() && outside_all(j, rs@) implies #[trigger] store@[j] == s0@[j] by {
                assert(j < rs@[k as int].start || j >= rs@[k as int].start + rs@[k as int].nblocks);
                assert(store@[j] == before@[j]);
            }
        }
        k = k + 1;
    }
}

} // verus!
