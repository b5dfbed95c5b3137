use vstd::prelude::*;
use rand::seq::SliceRandom;
use crate::bits::{true_count, ones_of, lemma_ones_of, indicator, lemma_indicator_count};
use crate::bitset::{BitSet, len_fits};
use crate::counting::{BigNat, natural_below};
use crate::game::random_below;
use crate::arrangements::{
    subset, sets_view, mines_of, empties_of, MineArrangements, ArrangementSet, overlap_count, or_seq, region, minus_seq,
    no_hint_stuck,
};
use crate::board::counters_consistent;
use crate::placements::{on_groups, counts_of, lemma_union_count, lemma_order_ok, lemma_region_iff, has_match, canonical_set, all_canonical};
use crate::board::Board;
use crate::game::InternalGame;
use crate::graph::{Graph, same_graph_as};
use crate::solution_counting::{
    weight, count_weight, count_list, counts_fit, sizes_ok, arrangement_count, index_vectors, sum_mines, picked,
    solution_entry, solution_list, list_lens, sum_values, solutions_view,
};
use crate::combinations::psum;

verus! {

// ---------------------------------------------------------------------------------------------
// Randomness

/// Calls `rand::fill` on 32 bytes: bytes from the thread's generator. Which bytes come out is
/// left open.
#[verifier::external_body]
fn random_seed() -> (r: [u8; 32]) {
    let mut bytes = [0u8; 32];
    rand::fill(&mut bytes);
    bytes
}

/// Calls `SliceRandom::partial_shuffle(v, rng, amount)` with the thread's generator and keeps
/// the first slice it returns: `amount` entries of `v` (all of them when `v` is shorter),
/// picked at random. The two slices it returns are a reordering of `v`, so the entries kept
/// are, with their repetitions, among those of `v`; which ones is left open.
#[verifier::external_body]
fn partial_shuffle_front(v: Vec<usize>, amount: usize) -> (r: Vec<usize>)
    ensures
        r@.len() == if amount < v@.len() {
            amount as nat
        } else {
            v@.len()
        },
        r@.to_multiset().subset_of(v@.to_multiset()),
{
    let mut v = v;
    let (chosen, _) = v.partial_shuffle(&mut rand::rng(), amount);
    chosen.to_vec()
}

// ---------------------------------------------------------------------------------------------
// Weighted picks

/// The sum of the first `k` weights.
pub open spec fn prefix_total(w: Seq<nat>, k: int) -> nat
    decreases k,
{
    if k <= 0 {
        0
    } else {
        prefix_total(w, k - 1) + w[k - 1]
    }
}

/// The values of a list of numbers.
pub open spec fn nat_values(v: Seq<BigNat>) -> Seq<nat> {
    Seq::new(v.len(), |i: int| v[i]@)
}

/// The values of a list of `u64` counts.
pub open spec fn count_values(v: Seq<u64>) -> Seq<nat> {
    Seq::new(v.len(), |i: int| v[i] as nat)
}

/// The sums of weights grow with the number of weights summed.
proof fn lemma_prefix_total_mono(w: Seq<nat>, a: int, b: int)
    requires
        0 <= a <= b,
    ensures
        prefix_total(w, a) <= prefix_total(w, b),
    decreases b - a,
{
    if a < b {
        lemma_prefix_total_mono(w, a, b - 1);
    }
}

/// The position whose share of the weights holds `x`, when `x` is below their sum: the first
/// position at which the running sum passes `x`.
pub fn pick_weighted_natural(weights: &Vec<BigNat>, x: &BigNat) -> (r: usize)
    requires
        x@ < prefix_total(nat_values(weights@), weights@.len() as int),
    ensures
        r < weights@.len(),
        prefix_total(nat_values(weights@), r as int) <= x@ < prefix_total(nat_values(weights@), r + 1),
{
    let ghost w = nat_values(weights@);
    let mut rest = x.clone();
    let mut i: usize = 0;
    while i < weights.len()
        invariant
            w == nat_values(weights@),
            i <= weights@.len(),
            rest@ + prefix_total(w, i as int) == x@,
            x@ < prefix_total(w, weights@.len() as int),
        decreases weights.len() - i,
    {
        if !weights[i].le(&rest) {
            return i;
        }
        rest = rest.sub(&weights[i]);
        i = i + 1;
    }
    proof {
        assert(false);
    }
    0
}

/// The position whose share of the counts holds `x`: the first position at which the running
/// sum passes `x`; `None` when `x` is not below their sum.
pub fn pick_weighted(counts: &Vec<u64>, x: u64) -> (r: Option<usize>)
    ensures
        match r {
            Some(i) => i < counts@.len() && prefix_total(count_values(counts@), i as int) <= x
                < prefix_total(count_values(counts@), i + 1),
            None => prefix_total(count_values(counts@), counts@.len() as int) <= x,
        },
{
    let ghost w = count_values(counts@);
    let mut rest = x;
    let mut i: usize = 0;
    while i < counts.len()
        invariant
            w == count_values(counts@),
            i <= counts@.len(),
            rest + prefix_total(w, i as int) == x,
        decreases counts.len() - i,
    {
        if counts[i] > rest {
            return Some(i);
        }
        rest = rest - counts[i];
        i = i + 1;
    }
    None
}

/// A position picked at random, each with a chance proportional to its weight; the weights
/// must not all be zero.
pub fn select_weighted_random_natural(weights: &Vec<BigNat>) -> (r: usize)
    requires
        prefix_total(nat_values(weights@), weights@.len() as int) > 0,
    ensures
        r < weights@.len(),
        weights@[r as int]@ > 0,
{
    let ghost w = nat_values(weights@);
    let mut sum = BigNat::zero();
    let mut i: usize = 0;
    while i < weights.len()
        invariant
            w == nat_values(weights@),
            i <= weights@.len(),
            sum@ == prefix_total(w, i as int),
        decreases weights.len() - i,
    {
        sum = sum.add(&weights[i]);
        i = i + 1;
    }
    let seed = random_seed();
    let x = natural_below(seed, &sum);
    pick_weighted_natural(weights, &x)
}

/// A position picked at random, each with a chance proportional to its count; the counts
/// must not all be zero and their sum must fit in a `u64`.
pub fn select_weighted_random(counts: &Vec<u64>) -> (r: Option<usize>)
    requires
        0 < prefix_total(count_values(counts@), counts@.len() as int) <= u64::MAX,
    ensures
        r is Some,
        r->0 < counts@.len(),
        counts@[r->0 as int] > 0,
{
    let ghost w = count_values(counts@);
    let mut sum: u64 = 0;
    let mut i: usize = 0;
    while i < counts.len()
        invariant
            w == count_values(counts@),
            i <= counts@.len(),
            sum == prefix_total(w, i as int),
            prefix_total(w, counts@.len() as int) <= u64::MAX,
        decreases counts.len() - i,
    {
        proof {
            lemma_prefix_total_mono(w, i + 1, counts@.len() as int);
        }
        sum = sum + counts[i];
        i = i + 1;
    }
    let x = random_below(sum);
    pick_weighted(counts, x)
}

// ---------------------------------------------------------------------------------------------
// Random subsets

/// `n` elements of `mask` picked at random (all of them when it has fewer), as a set of the
/// same length.
pub fn random_combination(mask: &BitSet, n: usize) -> (r: BitSet)
    requires
        mask.wf(),
        len_fits(mask@.len()),
    ensures
        r.wf(),
        r@.len() == mask@.len(),
        subset(r@, mask@),
        true_count(r@) == if n < true_count(mask@) {
            n as nat
        } else {
            true_count(mask@)
        },
{
    let indices = mask.iter_ones();
    proof {
        lemma_ones_of(mask@);
    }
    let ghost idx = indices@;
    let chosen = partial_shuffle_front(indices, n);
    proof {
        broadcast use vstd::seq_lib::group_to_multiset_ensures;
        assert(idx.no_duplicates()) by {
            assert forall|a: int, b: int| 0 <= a < idx.len() && 0 <= b < idx.len() && a != b implies idx[a]
                != idx[b] by {
                if a < b {
                    assert(idx[a] < idx[b]);
                } else {
                    assert(idx[b] < idx[a]);
                }
            }
        }
        idx.lemma_multiset_has_no_duplicates();
        assert forall|k: int| 0 <= k < chosen@.len() implies #[trigger] idx.contains(chosen@[k]) by {
            assert(chosen@.to_multiset().count(chosen@[k]) > 0);
            assert(chosen@.to_multiset().count(chosen@[k]) <= idx.to_multiset().count(chosen@[k]));
        }
        assert forall|x: usize| chosen@.to_multiset().contains(x) implies chosen@.to_multiset().count(x) == 1 by {
            assert(idx.to_multiset().count(x) >= chosen@.to_multiset().count(x));
            assert(idx.to_multiset().contains(x));
        }
        chosen@.lemma_multiset_has_no_duplicates_conv();
        assert forall|k: int| 0 <= k < chosen@.len() implies #[trigger] chosen@[k] < mask@.len() by {
            assert(idx.contains(chosen@[k]));
            let m = choose|m: int| 0 <= m < idx.len() && idx[m] == chosen@[k];
        }
    }
    let r = BitSet::from_iter(chosen.as_slice(), mask.len());
    proof {
        assert(r@ == indicator(chosen@, mask@.len()));
        lemma_indicator_count(chosen@, mask@.len());
        assert forall|t: int| 0 <= t < r@.len() && #[trigger] r@[t] implies t < mask@.len() && mask@[t] by {
            assert(chosen@.contains(t as usize));
            let k = choose|k: int| 0 <= k < chosen@.len() && chosen@[k] == t as usize;
            assert(idx.contains(chosen@[k]));
            let m = choose|m: int| 0 <= m < idx.len() && idx[m] == chosen@[k];
        }
    }
    r
}

// ---------------------------------------------------------------------------------------------
// What the counting lists hold

/// Each entry of a count list is a number of mines below `m` with its (positive) number of
/// placements.
proof fn lemma_count_list_entry(arrs: Seq<Seq<bool>>, gs: Seq<Seq<bool>>, order: Seq<usize>, m: int, q: int)
    requires
        0 <= q < count_list(arrs, gs, order, m).len(),
        m <= usize::MAX + 1,
    ensures
        count_list(arrs, gs, order, m)[q].0 < m,
        count_weight(arrs, gs, order, count_list(arrs, gs, order, m)[q].0 as nat) > 0,
        count_list(arrs, gs, order, m)[q].1 == count_weight(
            arrs,
            gs,
            order,
            count_list(arrs, gs, order, m)[q].0 as nat,
        ) as u64,
    decreases m,
{
    if m > 0 {
        let prev = count_list(arrs, gs, order, m - 1);
        let w = count_weight(arrs, gs, order, (m - 1) as nat);
        if q < prev.len() {
            lemma_count_list_entry(arrs, gs, order, m - 1, q);
            assert(count_list(arrs, gs, order, m)[q] == prev[q]);
        } else {
            assert(w > 0);
            assert(count_list(arrs, gs, order, m) == prev + seq![((m - 1) as usize, w as u64)]);
            assert(count_list(arrs, gs, order, m)[q] == ((m - 1) as usize, w as u64));
        }
    }
}

/// Every entry of a solution list comes from one of the picks.
proof fn lemma_solution_list_entry(lists: Seq<Seq<(usize, u64)>>, vs: Seq<Seq<usize>>, rem: nat, unc: nat, j: int)
    requires
        0 <= j < solution_list(lists, vs, rem, unc).len(),
    ensures
        exists|i: int| 0 <= i < vs.len() && #[trigger] solution_entry(lists, vs[i], rem, unc) == Some(
            solution_list(lists, vs, rem, unc)[j],
        ),
    decreases vs.len(),
{
    let prev = solution_list(lists, vs.drop_last(), rem, unc);
    if j < prev.len() {
        lemma_solution_list_entry(lists, vs.drop_last(), rem, unc, j);
        let i = choose|i: int| 0 <= i < vs.drop_last().len() && #[trigger] solution_entry(lists, vs.drop_last()[i], rem, unc)
            == Some(prev[j]);
        assert(vs[i] == vs.drop_last()[i]);
        assert(solution_list(lists, vs, rem, unc)[j] == prev[j]);
    } else {
        assert(solution_entry(lists, vs[vs.len() - 1], rem, unc) == Some(solution_list(lists, vs, rem, unc)[j]));
    }
}

/// Every pick has one index per list, each within its list.
proof fn lemma_index_vectors_valid(lens: Seq<nat>, k: int, e: int, prefix: Seq<usize>, j: int)
    requires
        0 <= k <= lens.len(),
        prefix.len() == k,
        forall|m: int| 0 <= m < k ==> #[trigger] prefix[m] < lens[m],
        0 <= j < index_vectors(lens, k, e, prefix).len(),
    ensures
        index_vectors(lens, k, e, prefix)[j].len() == lens.len(),
        forall|m: int| 0 <= m < lens.len() ==> #[trigger] index_vectors(lens, k, e, prefix)[j][m] < lens[m],
    decreases lens.len() - k, (if 0 <= k < lens.len() {
        lens[k] - e
    } else {
        0
    }),
{
    if k < lens.len() && 0 <= e < lens[k] {
        let a = index_vectors(lens, k + 1, 0, prefix.push(e as usize));
        let b = index_vectors(lens, k, e + 1, prefix);
        assert(index_vectors(lens, k, e, prefix) == a + b);
        if j < a.len() {
            assert forall|m: int| 0 <= m < k + 1 implies #[trigger] prefix.push(e as usize)[m] < lens[m] by {
                if m < k {
                    assert(prefix.push(e as usize)[m] == prefix[m]);
                }
            }
            lemma_index_vectors_valid(lens, k + 1, 0, prefix.push(e as usize), j);
        } else {
            lemma_index_vectors_valid(lens, k, e + 1, prefix, j - a.len());
        }
    }
}

proof fn lemma_sum_mines_step(entries: Seq<(usize, u64)>, k: int)
    requires
        0 <= k < entries.len(),
    ensures
        sum_mines(entries.take(k + 1)) == sum_mines(entries.take(k)) + entries[k].0,
{
    assert(entries.take(k + 1).drop_last() == entries.take(k));
}

proof fn lemma_sum_mines_prefix(entries: Seq<(usize, u64)>, k: int)
    requires
        0 <= k <= entries.len(),
    ensures
        sum_mines(entries.take(k)) <= sum_mines(entries),
    decreases entries.len() - k,
{
    if k < entries.len() {
        lemma_sum_mines_step(entries, k);
        lemma_sum_mines_prefix(entries, k + 1);
    } else {
        assert(entries.take(k) == entries);
    }
}

/// Sums of weights that agree on their first `k` entries agree.
proof fn lemma_prefix_total_agree(a: Seq<nat>, b: Seq<nat>, k: int)
    requires
        0 <= k,
        forall|i: int| 0 <= i < k ==> a[i] == b[i],
    ensures
        prefix_total(a, k) == prefix_total(b, k),
    decreases k,
{
    if k > 0 {
        lemma_prefix_total_agree(a, b, k - 1);
    }
}

/// The sum of the first `k` whole-board counts.
proof fn lemma_prefix_total_values(s: Seq<(nat, Seq<(usize, u64)>)>, w: Seq<nat>, k: int)
    requires
        0 <= k <= s.len(),
        w.len() == s.len(),
        forall|i: int| 0 <= i < s.len() ==> #[trigger] w[i] == s[i].0,
    ensures
        prefix_total(w, k) == sum_values(s.take(k)),
    decreases k,
{
    if k > 0 {
        lemma_prefix_total_values(s, w, k - 1);
        assert(s.take(k).drop_last() == s.take(k - 1));
    }
}

// ---------------------------------------------------------------------------------------------
// Sampling

/// A board with a consistent placement of its remaining mines has arrangements whose count of
/// placements is positive, so that a placement can be drawn from them.
pub proof fn law_consistent_placement_counted<G: Graph>(board: Board<G>, ss: MineArrangements, p: Seq<bool>)
    requires
        board.arrangements_of(ss),
        ss.counts_ok(),
        board.consistent_placement(p),
    ensures
        sum_values(ss.spec_solution_counts()) > 0,
{
    assert(ss.admits(p));
    ss.law_admitted_placement_counted(p);
}

impl MineArrangements {
    /// A tile of a group of region `k` lies in the region.
    proof fn lemma_group_in_region(&self, k: int, g: int, t: int)
        requires
            self.wf(),
            self.exact(),
            0 <= k < self.spec_subs().len(),
            0 <= g < self.spec_num_tiles(),
            self.spec_subs()[k].spec_groups()[g],
            0 <= t < self.spec_num_tiles(),
            self.spec_groups()[g][t],
        ensures
            self.spec_subs()[k].spec_mask()[t],
    {
        self.lemma_wf();
        let sub = self.spec_subs()[k];
        sub.lemma_wf_in(self.spec_num_tiles(), self.spec_groups().len());
        assert(on_groups(sub, self.spec_groups()));
        lemma_region_iff(self.spec_groups(), sub.spec_groups(), t);
    }

    /// One group's share of a region's mines added to the sample: the count grows by the share,
    /// the earlier groups and regions keep theirs, and the new group gets it.
    proof fn lemma_sample_step(
        &self,
        kk: int,
        before: Seq<bool>,
        part: Seq<bool>,
        g: int,
        gl: Seq<usize>,
        q: int,
        free: Seq<bool>,
        arr: Seq<bool>,
    )
        requires
            self.wf(),
            self.exact(),
            0 <= kk < self.spec_subs().len(),
            gl == ones_of(self.spec_subs()[kk].spec_groups()),
            0 <= q < gl.len(),
            g == gl[q],
            free == self.spec_unconstrained(),
            before.len() == self.spec_num_tiles(),
            part.len() == self.spec_num_tiles(),
            arr.len() == self.spec_num_tiles(),
            subset(part, self.spec_groups()[g]),
            true_count(part) == overlap_count(arr, self.spec_groups()[g]),
            forall|t: int| 0 <= t < self.spec_num_tiles() && #[trigger] before[t] ==> free[t] || (exists|k2: int|
                0 <= k2 < kk && #[trigger] self.spec_subs()[k2].spec_mask()[t]) || exists|m: int|
                0 <= m < q && #[trigger] self.spec_groups()[gl[m] as int][t],
            forall|k2: int| 0 <= k2 < kk ==> spreads_arrangement(#[trigger] self.spec_subs()[k2], before, self.spec_groups()),
            forall|m: int| 0 <= m < q ==> overlap_count(before, #[trigger] self.spec_groups()[gl[m] as int]) == overlap_count(
                arr,
                self.spec_groups()[gl[m] as int],
            ),
        ensures
            ({
                let u = Seq::new(before.len(), |i: int| before[i] || part[i]);
                &&& forall|t: int| 0 <= t < self.spec_num_tiles() && #[trigger] u[t] ==> free[t] || (exists|k2: int|
                    0 <= k2 < kk && #[trigger] self.spec_subs()[k2].spec_mask()[t]) || exists|m: int|
                    0 <= m < q + 1 && #[trigger] self.spec_groups()[gl[m] as int][t]
                &&& true_count(u) == true_count(before) + overlap_count(arr, self.spec_groups()[g])
                &&& forall|k2: int| 0 <= k2 < kk ==> spreads_arrangement(#[trigger] self.spec_subs()[k2], u, self.spec_groups())
                &&& forall|m: int| 0 <= m < q + 1 ==> overlap_count(u, #[trigger] self.spec_groups()[gl[m] as int])
                    == overlap_count(arr, self.spec_groups()[gl[m] as int])
            }),
    {
        let n = self.spec_num_tiles();
        let gs = self.spec_groups();
        let subs = self.spec_subs();
        self.lemma_wf();
        let sub = subs[kk];
        sub.lemma_wf_in(n, gs.len());
        lemma_ones_of(sub.spec_groups());
        assert(sub.spec_groups()[g]);
        let gg = gs[g];
        let u = Seq::new(before.len(), |i: int| before[i] || part[i]);
        let masks = Seq::new(self.spec_subs().len(), |k: int| self.spec_subs()[k].spec_mask());
        self.lemma_unconstrained_masks();
        // the sample so far has no tile of the group
        assert forall|t: int| 0 <= t < before.len() && #[trigger] gg[t] implies !before[t] by {
            self.lemma_group_in_region(kk, g, t);
            if before[t] {
                if free[t] {
                    assert(masks[kk][t]);
                } else if exists|k2: int| 0 <= k2 < kk && #[trigger] self.spec_subs()[k2].spec_mask()[t] {
                    let k2 = choose|k2: int| 0 <= k2 < kk && #[trigger] self.spec_subs()[k2].spec_mask()[t];
                    assert(!(subs[k2].spec_mask()[t] && subs[kk].spec_mask()[t]));
                } else {
                    let m = choose|m: int| 0 <= m < q && #[trigger] gs[gl[m] as int][t];
                    assert(gl[m] < gl[q]);
                    assert(!(gs[gl[m] as int][t] && gs[gl[q] as int][t]));
                }
            }
        }
        lemma_add_part(before, part, gg, u);
        assert forall|k2: int| 0 <= k2 < kk implies spreads_arrangement(#[trigger] subs[k2], u, gs) by {
            let s2 = subs[k2];
            s2.lemma_wf_in(n, gs.len());
            let a = choose|a: Seq<bool>|
                #[trigger] s2.spec_arrangements().contains(a) && forall|g2: int|
                    0 <= g2 < s2.spec_groups().len() && #[trigger] s2.spec_groups()[g2] ==> overlap_count(before, gs[g2])
                        == overlap_count(a, gs[g2]);
            assert forall|g2: int| 0 <= g2 < s2.spec_groups().len() && #[trigger] s2.spec_groups()[g2] implies overlap_count(u, gs[g2])
                == overlap_count(a, gs[g2]) by {
                assert forall|t: int| 0 <= t < gs[g2].len() && #[trigger] gs[g2][t] implies !gg[t] by {
                    self.lemma_group_in_region(k2, g2, t);
                    if gg[t] {
                        self.lemma_group_in_region(kk, g, t);
                        assert(!(subs[k2].spec_mask()[t] && subs[kk].spec_mask()[t]));
                    }
                }
            }
        }
        assert forall|m: int| 0 <= m < q + 1 implies overlap_count(u, #[trigger] gs[gl[m] as int]) == overlap_count(
            arr,
            gs[gl[m] as int],
        ) by {
            if m < q {
                assert(gl[m] < gl[q]);
                assert forall|t: int| 0 <= t < gs[gl[m] as int].len() && #[trigger] gs[gl[m] as int][t] implies !gg[t] by {
                    assert(!(gs[gl[m] as int][t] && gs[gl[q] as int][t]));
                }
            }
        }
        assert forall|t: int| 0 <= t < n && #[trigger] u[t] implies free[t] || (exists|k2: int|
            0 <= k2 < kk && #[trigger] self.spec_subs()[k2].spec_mask()[t]) || exists|m: int|
            0 <= m < q + 1 && #[trigger] gs[gl[m] as int][t] by {
            if !before[t] {
                assert(part[t]);
                assert(gs[gl[q] as int][t]);
            }
        }
    }

    /// The tiles outside every region are the mask's tiles in no region's mask.
    proof fn lemma_unconstrained_masks(&self)
        ensures
            self.spec_unconstrained() == crate::arrangements::minus_all(
                self.spec_mask(),
                Seq::new(self.spec_subs().len(), |k: int| self.spec_subs()[k].spec_mask()),
            ),
    {
        self.lemma_unconstrained_is();
    }

    /// After every group of region `kk` got its share: the sample spreads the region's chosen
    /// arrangement, whose size is the sum of the shares, over the region's tiles.
    proof fn lemma_sample_region_done(&self, kk: int, out: Seq<bool>, arr: Seq<bool>, gl: Seq<usize>)
        requires
            self.wf(),
            self.exact(),
            0 <= kk < self.spec_subs().len(),
            gl == ones_of(self.spec_subs()[kk].spec_groups()),
            self.spec_subs()[kk].spec_arrangements().contains(arr),
            out.len() == self.spec_num_tiles(),
            forall|m: int| 0 <= m < gl.len() ==> overlap_count(out, #[trigger] self.spec_groups()[gl[m] as int])
                == overlap_count(arr, self.spec_groups()[gl[m] as int]),
        ensures
            spreads_arrangement(self.spec_subs()[kk], out, self.spec_groups()),
            psum(counts_of(arr, self.spec_groups(), gl), gl.len() as int) == true_count(arr),
            forall|t: int| 0 <= t < self.spec_num_tiles() && (exists|m: int| 0 <= m < gl.len() && #[trigger] self.spec_groups()[gl[m] as int][t])
                ==> self.spec_subs()[kk].spec_mask()[t],
    {
        let n = self.spec_num_tiles();
        let gs = self.spec_groups();
        self.lemma_wf();
        let sub = self.spec_subs()[kk];
        sub.lemma_wf_in(n, gs.len());
        lemma_ones_of(sub.spec_groups());
        let ka = choose|ka: int| 0 <= ka < sub.spec_arrangements().len() && sub.spec_arrangements()[ka] == arr;
        assert(arr.len() == n && subset(arr, sub.spec_mask()));
        assert forall|g: int| 0 <= g < sub.spec_groups().len() && #[trigger] sub.spec_groups()[g] implies overlap_count(out, gs[g])
            == overlap_count(arr, gs[g]) by {
            assert(gl.contains(g as usize));
            let m = choose|m: int| 0 <= m < gl.len() && gl[m] == g as usize;
            assert(gs[gl[m] as int] == gs[g]);
        }
        lemma_order_ok(gs, sub.spec_groups());
        lemma_union_count(arr, gs, gl, n, gl.len() as int);
        assert(gl.take(gl.len() as int) =~= gl);
        assert(on_groups(sub, gs));
        assert(Seq::new(arr.len(), |i: int| arr[i] && sub.spec_mask()[i]) =~= arr);
        assert forall|t: int| 0 <= t < n && (exists|m: int| 0 <= m < gl.len() && #[trigger] gs[gl[m] as int][t]) implies sub.spec_mask()[t] by {
            let m = choose|m: int| 0 <= m < gl.len() && #[trigger] gs[gl[m] as int][t];
            self.lemma_group_in_region(kk, gl[m] as int, t);
        }
    }
}

/// `p` spreads the mines of some arrangement of the set over its groups: as many on each group
/// as the arrangement has there.
pub open spec fn spreads_arrangement(s: ArrangementSet, p: Seq<bool>, gs: Seq<Seq<bool>>) -> bool {
    exists|a: Seq<bool>|
        #[trigger] s.spec_arrangements().contains(a) && forall|g: int|
            0 <= g < s.spec_groups().len() && #[trigger] s.spec_groups()[g] ==> overlap_count(p, gs[g]) == overlap_count(a, gs[g])
}

/// Adding `part` to `out`, where `part` lies on `g` and `out` has no tile of `g`, adds its size
/// and leaves the counts on the groups that `part` misses.
proof fn lemma_add_part(out: Seq<bool>, part: Seq<bool>, g: Seq<bool>, u: Seq<bool>)
    requires
        out.len() == part.len(),
        g.len() == part.len(),
        u == Seq::new(out.len(), |i: int| out[i] || part[i]),
        subset(part, g),
        forall|t: int| 0 <= t < out.len() && #[trigger] g[t] ==> !out[t],
    ensures
        true_count(u) == true_count(out) + true_count(part),
        overlap_count(u, g) == true_count(part),
        forall|h: Seq<bool>| h.len() == out.len() && (forall|t: int| 0 <= t < h.len() && #[trigger] h[t] ==> !g[t]) ==> #[trigger] overlap_count(
            u,
            h,
        ) == overlap_count(out, h),
{
    crate::combinations::lemma_true_count_disjoint_or(out, part);
    assert(Seq::new(u.len(), |i: int| u[i] && g[i]) =~= part);
    assert forall|h: Seq<bool>| h.len() == out.len() && (forall|t: int| 0 <= t < h.len() && #[trigger] h[t] ==> !g[t]) implies #[trigger] overlap_count(
        u,
        h,
    ) == overlap_count(out, h) by {
        crate::placements::lemma_overlap_agree(u, out, h);
    }
}

impl MineArrangements {
    /// A placement of the remaining mines drawn at random, each placement that every region
    /// allows equally likely: first a pick of a number of mines per region, by its number of
    /// placements; then the mines outside every region, at random; then, per region, an
    /// arrangement with its number of mines, by its number of placements, and its mines
    /// spread at random over the tiles of each of its groups.
    pub fn sample_arrangement(&self) -> (r: BitSet)
        requires
            self.wf(),
            self.counts_ok(),
            sum_values(self.spec_solution_counts()) > 0,
        ensures
            r.wf(),
            r@.len() == self.spec_num_tiles(),
            forall|t: int| 0 <= t < r@.len() && #[trigger] r@[t] ==> self.spec_unconstrained()[t] || exists|g: int|
                0 <= g < self.spec_groups().len() && self.spec_groups()[g][t],
            self.exact() ==> {
                &&& true_count(r@) == self.spec_remaining_mines()
                &&& subset(r@, self.spec_mask())
                &&& forall|k: int| 0 <= k < self.spec_subs().len() ==> spreads_arrangement(
                    #[trigger] self.spec_subs()[k],
                    r@,
                    self.spec_groups(),
                )
            },
            self.exact() && all_canonical(self.spec_subs(), self.spec_groups()) ==> self.admits(r@),
    {
        proof {
            self.lemma_wf();
        }
        let n = self.num_tiles();
        let solution_counts = self.solution_counts();
        let group_sizes = self.group_sizes();
        let groups = self.groups_ref();
        let subs = self.subs_ref();
        let ghost gs = self.spec_groups();
        let ghost sols = self.spec_solution_counts();
        let ghost lists = self.spec_count_lists();
        let ghost rem = self.spec_remaining_mines();
        let ghost unc = true_count(self.spec_unconstrained());

        let mut weights: Vec<BigNat> = Vec::new();
        let mut j: usize = 0;
        while j < solution_counts.len()
            invariant
                solutions_view(solution_counts@) == sols,
                j <= solution_counts@.len(),
                weights@.len() == j,
                forall|i: int| 0 <= i < j ==> #[trigger] weights@[i]@ == sols[i].0,
            decreases solution_counts.len() - j,
        {
            weights.push(solution_counts[j].0.clone());
            j = j + 1;
        }
        proof {
            lemma_prefix_total_values(sols, nat_values(weights@), sols.len() as int);
            assert(sols.take(sols.len() as int) == sols);
        }
        let i = select_weighted_random_natural(&weights);
        let counts = &solution_counts[i].1;
        let ghost lens = list_lens(lists);
        proof {
            let vs = index_vectors(lens, 0, 0, Seq::empty());
            lemma_solution_list_entry(lists, vs, rem, unc, i as int);
            let iv = choose|iv: int| 0 <= iv < vs.len() && #[trigger] solution_entry(lists, vs[iv], rem, unc) == Some(
                sols[i as int],
            );
            lemma_index_vectors_valid(lens, 0, 0, Seq::empty(), iv);
            assert(counts@ == picked(lists, vs[iv]));
            assert forall|k: int| 0 <= k < counts@.len() implies {
                &&& (#[trigger] counts@[k]).0 < true_count(self.spec_subs()[k].spec_mask()) + 1
                &&& count_weight(
                    self.spec_subs()[k].spec_arrangements(),
                    gs,
                    ones_of(self.spec_subs()[k].spec_groups()),
                    counts@[k].0 as nat,
                ) > 0
            } by {
                assert(counts@[k] == lists[k][vs[iv][k] as int]);
                self.spec_subs()[k].lemma_wf_in(self.spec_num_tiles(), gs.len());
                crate::bits::lemma_true_count_le(self.spec_subs()[k].spec_mask());
                lemma_count_list_entry(
                    self.spec_subs()[k].spec_arrangements(),
                    gs,
                    ones_of(self.spec_subs()[k].spec_groups()),
                    true_count(self.spec_subs()[k].spec_mask()) + 1int,
                    vs[iv][k] as int,
                );
            }
            assert(counts@.len() == subs@.len());
        }
        let remaining = self.remaining_mines();
        let mut placed: usize = 0;
        let mut k: usize = 0;
        while k < counts.len()
            invariant
                k <= counts@.len(),
                placed == sum_mines(counts@.take(k as int)),
                sum_mines(counts@) <= rem,
                rem == remaining,
            decreases counts.len() - k,
        {
            proof {
                lemma_sum_mines_step(counts@, k as int);
                lemma_sum_mines_prefix(counts@, k + 1);
            }
            placed = placed + counts[k].0;
            k = k + 1;
        }
        proof {
            assert(counts@.take(counts@.len() as int) == counts@);
        }
        let unconstrained_mines = remaining - placed;
        let free = self.unconstrained();
        let mut out = random_combination(&free, unconstrained_mines);
        let ghost ex = self.exact();
        let ghost sm = sum_mines(counts@);
        proof {
            assert(sm <= rem && rem - sm <= unc) by {
                let vs = index_vectors(lens, 0, 0, Seq::empty());
                lemma_solution_list_entry(lists, vs, rem, unc, i as int);
                let iv = choose|iv: int| 0 <= iv < vs.len() && #[trigger] solution_entry(lists, vs[iv], rem, unc) == Some(
                    sols[i as int],
                );
                lemma_index_vectors_valid(lens, 0, 0, Seq::empty(), iv);
            }
            assert(true_count(out@) == rem - sm);
            assert(counts@.take(0) =~= Seq::<(usize, u64)>::empty());
        }
        let mut k: usize = 0;
        while k < counts.len()
            invariant
                self.wf(),
                self.counts_ok(),
                n == self.spec_num_tiles(),
                len_fits(n as nat),
                gs == self.spec_groups(),
                subs@ == self.spec_subs(),
                groups@ == self.groups_spec_vec(),
                sets_view(groups@) == gs,
                forall|g: int| 0 <= g < groups@.len() ==> (#[trigger] groups@[g]).wf() && groups@[g]@.len() == n,
                sizes_ok(groups@, group_sizes@, n as nat),
                counts@.len() == subs@.len(),
                forall|q: int| 0 <= q < counts@.len() ==> count_weight(
                    self.spec_subs()[q].spec_arrangements(),
                    gs,
                    ones_of(self.spec_subs()[q].spec_groups()),
                    (#[trigger] counts@[q]).0 as nat,
                ) > 0,
                k <= counts@.len(),
                out.wf(),
                out@.len() == n,
                forall|t: int| 0 <= t < out@.len() && #[trigger] out@[t] ==> self.spec_unconstrained()[t] || exists|g: int|
                    0 <= g < gs.len() && gs[g][t],
                free@ == self.spec_unconstrained(),
                ex == self.exact(),
                sm == sum_mines(counts@),
                sm <= rem,
                ex ==> forall|t: int| 0 <= t < n && #[trigger] out@[t] ==> free@[t] || exists|k2: int|
                    0 <= k2 < k && #[trigger] self.spec_subs()[k2].spec_mask()[t],
                ex ==> true_count(out@) == (rem - sm) + sum_mines(counts@.take(k as int)),
                ex ==> forall|k2: int| 0 <= k2 < k ==> spreads_arrangement(#[trigger] self.spec_subs()[k2], out@, gs),
            decreases counts.len() - k,
        {
            let num_mines = counts[k].0;
            let ghost out_k = out@;
            let sub = &subs[k];
            let ghost arrs_s = sub.spec_arrangements();
            let ghost order = ones_of(sub.spec_groups());
            proof {
                self.lemma_wf();
                assert(self.spec_subs()[k as int] == *sub);
                sub.lemma_wf_in(n as nat, gs.len());
                assert(counts_fit(arrs_s, gs, order, n as nat));
            }
            let arrs = sub.arrangements_ref();
            let gset = sub.groups_ref();
            proof {
                assert forall|q: int| 0 <= q < arrs@.len() implies (#[trigger] arrs@[q]).wf() && arrs@[q]@.len() == n by {
                    assert(sets_view(arrs@)[q] == arrs@[q]@);
                }
            }
            let mut cand: Vec<usize> = Vec::new();
            let mut cw: Vec<u64> = Vec::new();
            let mut a: usize = 0;
            while a < arrs.len()
                invariant
                    sets_view(arrs@) == arrs_s,
                    forall|q: int| 0 <= q < arrs@.len() ==> (#[trigger] arrs@[q]).wf() && arrs@[q]@.len() == n,
                    gset.wf(),
                    gset@ == sub.spec_groups(),
                    gset@.len() == n,
                    len_fits(n as nat),
                    order == ones_of(gset@),
                    forall|g: int| 0 <= g < n && #[trigger] gset@[g] ==> g < gs.len(),
                    sets_view(groups@) == gs,
                    forall|g: int| 0 <= g < groups@.len() ==> (#[trigger] groups@[g]).wf() && groups@[g]@.len() == n,
                    sizes_ok(groups@, group_sizes@, n as nat),
                    counts_fit(arrs_s, gs, order, n as nat),
                    a <= arrs@.len(),
                    cand@.len() == cw@.len(),
                    forall|q: int| 0 <= q < cand@.len() ==> #[trigger] cand@[q] < a,
                    forall|q: int| 0 <= q < cand@.len() ==> true_count(#[trigger] arrs@[cand@[q] as int]@) == num_mines,
                    prefix_total(count_values(cw@), cw@.len() as int) == count_weight(
                        arrs_s.take(a as int),
                        gs,
                        order,
                        num_mines as nat,
                    ),
                decreases arrs.len() - a,
            {
                proof {
                    assert(arrs_s.take(a + 1).drop_last() == arrs_s.take(a as int));
                    assert(arrs_s.take(a + 1).last() == arrs@[a as int]@);
                }
                if arrs[a].count_ones() == num_mines {
                    proof {
                        assert(weight(arrs_s[a as int], gs, order) * (n + 1) <= u64::MAX);
                        assert(weight(arrs_s[a as int], gs, order) <= u64::MAX) by (nonlinear_arith)
                            requires
                                weight(arrs_s[a as int], gs, order) * (n + 1) <= u64::MAX,
                        ;
                    }
                    let c = arrangement_count(&arrs[a], gset, groups, &group_sizes, Ghost(n as nat));
                    let ghost before = cw@;
                    cand.push(a);
                    cw.push(c);
                    proof {
                        lemma_prefix_total_agree(count_values(cw@), count_values(before), before.len() as int);
                    }
                }
                a = a + 1;
            }
            proof {
                assert(arrs_s.take(arrs@.len() as int) == arrs_s);
                assert(count_weight(arrs_s, gs, order, num_mines as nat) <= u64::MAX);
            }
            let pick = select_weighted_random(&cw).unwrap();
            let arr = &arrs[cand[pick]];
            let group_list = gset.iter_ones();
            proof {
                lemma_ones_of(gset@);
                assert(true_count(arr@) == num_mines);
                assert(arrs_s.contains(arr@)) by {
                    assert(arrs_s[cand@[pick as int] as int] == arr@);
                }
            }
            let ghost kk = k as int;
            let ghost mk = sub.spec_mask();
            let mut q: usize = 0;
            while q < group_list.len()
                invariant
                    group_list@ == ones_of(gset@),
                    forall|m: int| 0 <= m < group_list@.len() ==> #[trigger] group_list@[m] < n && gset@[group_list@[m] as int],
                    forall|g: int| 0 <= g < n && #[trigger] gset@[g] ==> g < gs.len(),
                    sets_view(groups@) == gs,
                    forall|g: int| 0 <= g < groups@.len() ==> (#[trigger] groups@[g]).wf() && groups@[g]@.len() == n,
                    len_fits(n as nat),
                    arr.wf(),
                    arr@.len() == n,
                    q <= group_list@.len(),
                    out.wf(),
                    out@.len() == n,
                    forall|t: int| 0 <= t < out@.len() && #[trigger] out@[t] ==> self.spec_unconstrained()[t] || exists|g: int|
                        0 <= g < gs.len() && gs[g][t],
                    free@ == self.spec_unconstrained(),
                    ex == self.exact(),
                    n == self.spec_num_tiles(),
                    0 <= kk < self.spec_subs().len(),
                    *sub == self.spec_subs()[kk],
                    mk == sub.spec_mask(),
                    gset@ == sub.spec_groups(),
                    gs == self.spec_groups(),
                    self.wf(),
                    ex ==> forall|t: int| 0 <= t < n && #[trigger] out@[t] ==> free@[t] || (exists|k2: int|
                        0 <= k2 < kk && #[trigger] self.spec_subs()[k2].spec_mask()[t]) || exists|m: int|
                        0 <= m < q && #[trigger] gs[group_list@[m] as int][t],
                    ex ==> true_count(out@) == true_count(out_k) + psum(counts_of(arr@, gs, group_list@), q as int),
                    ex ==> forall|k2: int| 0 <= k2 < kk ==> spreads_arrangement(#[trigger] self.spec_subs()[k2], out@, gs),
                    ex ==> forall|m: int| 0 <= m < q ==> overlap_count(out@, #[trigger] gs[group_list@[m] as int]) == overlap_count(
                        arr@,
                        gs[group_list@[m] as int],
                    ),
                decreases group_list.len() - q,
            {
                let g = group_list[q];
                let group_mask = &groups[g];
                let nm = group_mask.count_overlap_ones(arr);
                let part = random_combination(group_mask, nm);
                let ghost before = out@;
                out.add_assign(&part);
                proof {
                    assert(gs[g as int] == groups@[g as int]@);
                    assert forall|t: int| 0 <= t < out@.len() && #[trigger] out@[t] implies self.spec_unconstrained()[t] || exists|g2: int|
                        0 <= g2 < gs.len() && gs[g2][t] by {
                        if !before[t] {
                            assert(part@[t]);
                            assert(gs[g as int][t]);
                        }
                    }
                    if ex {
                        assert(Seq::new(gs[g as int].len(), |i: int| gs[g as int][i] && arr@[i]) =~= Seq::new(
                            arr@.len(), |i: int| arr@[i] && gs[g as int][i]));
                        crate::bits::lemma_true_count_le(Seq::new(arr@.len(), |i: int| arr@[i] && gs[g as int][i]));
                        crate::placements::lemma_overlap_le(arr@, gs[g as int]);
                        crate::bits::lemma_true_count_le(gs[g as int]);
                        self.lemma_sample_step(kk, before, part@, g as int, group_list@, q as int, free@, arr@);
                        assert(out@ == Seq::new(before.len(), |i: int| before[i] || part@[i]));
                        assert(counts_of(arr@, gs, group_list@)[q as int] == overlap_count(arr@, gs[g as int]));
                    }
                }
                q = q + 1;
            }
            proof {
                if ex {
                    self.lemma_sample_region_done(kk, out@, arr@, group_list@);
                    lemma_sum_mines_step(counts@, k as int);
                    assert forall|t: int| 0 <= t < n && #[trigger] out@[t] implies free@[t] || exists|k2: int|
                        0 <= k2 < k + 1 && #[trigger] self.spec_subs()[k2].spec_mask()[t] by {
                        if !free@[t] && !(exists|k2: int| 0 <= k2 < kk && #[trigger] self.spec_subs()[k2].spec_mask()[t]) {
                            assert(exists|m: int| 0 <= m < group_list@.len() && #[trigger] gs[group_list@[m] as int][t]);
                            assert(self.spec_subs()[kk].spec_mask()[t]);
                        }
                    }
                }
            }
            k = k + 1;
        }
        proof {
            self.lemma_wf();
            if ex {
                assert(counts@.take(counts@.len() as int) == counts@);
                assert forall|t: int| 0 <= t < out@.len() && #[trigger] out@[t] implies t < self.spec_mask().len() && self.spec_mask()[t] by {
                    self.lemma_unconstrained_in_mask();
                    if !free@[t] {
                        let k2 = choose|k2: int| 0 <= k2 < counts@.len() && #[trigger] self.spec_subs()[k2].spec_mask()[t];
                        assert(subset(self.spec_subs()[k2].spec_mask(), self.spec_mask()));
                        self.spec_subs()[k2].lemma_wf_in(self.spec_num_tiles(), self.spec_groups().len());
                    }
                }
                if all_canonical(self.spec_subs(), self.spec_groups()) {
                    assert forall|k2: int| 0 <= k2 < self.spec_subs().len() implies has_match(
                        #[trigger] self.spec_subs()[k2], out@, self.spec_groups()) by {
                        let sub = self.spec_subs()[k2];
                        assert(spreads_arrangement(sub, out@, self.spec_groups()));
                        let a = choose|a: Seq<bool>|
                            #[trigger] sub.spec_arrangements().contains(a) && forall|g: int|
                                0 <= g < sub.spec_groups().len() && #[trigger] sub.spec_groups()[g] ==> overlap_count(out@, self.spec_groups()[g])
                                    == overlap_count(a, self.spec_groups()[g]);
                        assert(canonical_set(sub, self.spec_groups()));
                        crate::placements::lemma_canonical_matches(a, out@, self.spec_groups(), sub.spec_groups());
                    }
                }
            }
        }
        out
    }
}

impl MineArrangements {
    /// A whole grid of mines drawn at random: the board's flagged mines, and the rest placed
    /// as `sample_arrangement` places them.
    pub fn sample_arrangement_with_board<G: Graph>(&self, board: &Board<G>) -> (r: BitSet)
        requires
            self.wf(),
            self.counts_ok(),
            sum_values(self.spec_solution_counts()) > 0,
            board.wf(),
            self.spec_num_tiles() == board.grid@.len(),
        ensures
            r.wf(),
            r@.len() == board.grid@.len(),
            forall|t: int| 0 <= t < r@.len() ==> (#[trigger] mines_of(board.grid@)[t] ==> r@[t]),
            forall|t: int| 0 <= t < r@.len() && #[trigger] r@[t] ==> mines_of(board.grid@)[t]
                || self.spec_unconstrained()[t] || exists|g: int| 0 <= g < self.spec_groups().len() && self.spec_groups()[g][t],
            self.exact() && self.spec_mask() == empties_of(board.grid@) ==> true_count(r@) == true_count(
                mines_of(board.grid@),
            ) + self.spec_remaining_mines(),
            board.arrangements_of(*self) && counters_consistent(board.grid@, board.graph)
                && no_hint_stuck(board.grid@) ==> board.consistent_placement(minus_seq(r@, mines_of(board.grid@))),
    {
        proof {
            self.lemma_wf();
        }
        let known = board.known_mines();
        let sampled = self.sample_arrangement();
        proof {
            if self.exact() && self.spec_mask() == empties_of(board.grid@) {
                assert forall|i: int| 0 <= i < known@.len() implies !(#[trigger] known@[i] && sampled@[i]) by {
                    if sampled@[i] {
                        assert(self.spec_mask()[i]);
                    }
                }
                crate::combinations::lemma_true_count_disjoint_or(known@, sampled@);
            }
        }
        let r = known.add(&sampled);
        proof {
            if board.arrangements_of(*self) && counters_consistent(board.grid@, board.graph)
                && no_hint_stuck(board.grid@) {
                assert(self.admits(sampled@));
                assert(minus_seq(r@, mines_of(board.grid@)) =~= sampled@) by {
                    assert forall|i: int| 0 <= i < sampled@.len() implies minus_seq(r@, mines_of(board.grid@))[i] == sampled@[i] by {
                        if sampled@[i] {
                            assert(empties_of(board.grid@)[i]);
                        }
                    }
                }
                crate::arrangements::law_admitted_consistent(*board, *self, sampled@);
            }
        }
        r
    }

    /// A game whose mines are a grid drawn by `sample_arrangement_with_board`, on a copy of
    /// the board's graph.
    pub fn sample_game_with_board<G: Graph>(&self, board: &Board<G>) -> (r: InternalGame<G>)
        requires
            self.wf(),
            self.counts_ok(),
            sum_values(self.spec_solution_counts()) > 0,
            board.wf(),
            self.spec_num_tiles() == board.grid@.len(),
        ensures
            r.grid is Some,
            r.grid->0.wf(),
            r.grid->0@.len() == board.grid@.len(),
            forall|t: int| 0 <= t < board.grid@.len() ==> (#[trigger] mines_of(board.grid@)[t] ==> r.grid->0@[t]),
            forall|t: int| 0 <= t < board.grid@.len() && #[trigger] r.grid->0@[t] ==> mines_of(board.grid@)[t]
                || self.spec_unconstrained()[t] || exists|g: int| 0 <= g < self.spec_groups().len() && self.spec_groups()[g][t],
            r.num_mines == true_count(r.grid->0@),
            same_graph_as(r.graph, board.graph),
            self.exact() && self.spec_mask() == empties_of(board.grid@) ==> r.num_mines == true_count(
                mines_of(board.grid@),
            ) + self.spec_remaining_mines(),
            board.arrangements_of(*self) && counters_consistent(board.grid@, board.graph)
                && no_hint_stuck(board.grid@) ==> board.consistent_placement(minus_seq(r.grid->0@, mines_of(board.grid@))),
    {
        let arrangement = self.sample_arrangement_with_board(board);
        InternalGame::from_grid(arrangement, board.graph.clone_graph())
    }

    /// A copy of `game` whose mines on the undecided tiles are drawn again by
    /// `sample_arrangement`; the mines elsewhere stay. A game with no mines placed yet gets the
    /// drawn mines alone.
    pub fn sample_game<G: Graph>(&self, game: &InternalGame<G>) -> (r: InternalGame<G>)
        requires
            self.wf(),
            self.counts_ok(),
            sum_values(self.spec_solution_counts()) > 0,
            game.grid is Some ==> game.grid->0.wf() && game.grid->0@.len() == self.spec_num_tiles(),
        ensures
            r.grid is Some,
            r.grid->0.wf(),
            r.grid->0@.len() == self.spec_num_tiles(),
            game.grid is Some ==> forall|t: int|
                0 <= t < self.spec_num_tiles() && !self.spec_mask()[t] && !(exists|g: int|
                    0 <= g < self.spec_groups().len() && self.spec_groups()[g][t]) ==> (#[trigger] r.grid->0@[t]
                    == game.grid->0@[t]),
            forall|t: int| 0 <= t < self.spec_num_tiles() && self.spec_mask()[t] && #[trigger] r.grid->0@[t]
                ==> self.spec_unconstrained()[t] || exists|g: int| 0 <= g < self.spec_groups().len() && self.spec_groups()[g][t],
            r.num_mines == game.num_mines,
            r.start_type == game.start_type,
            same_graph_as(r.graph, game.graph),
            self.exact() ==> true_count(r.grid->0@) == self.spec_remaining_mines() + match game.grid {
                Some(g) => true_count(crate::arrangements::minus_seq(g@, self.spec_mask())),
                None => 0,
            },
    {
        proof {
            self.lemma_wf();
            self.lemma_unconstrained_in_mask();
        }
        let arrangement = self.sample_arrangement();
        let grid = match &game.grid {
            Some(g) => {
                let kept = g.sub(self.mask_ref());
                proof {
                    if self.exact() {
                        assert(kept@ =~= crate::arrangements::minus_seq(g@, self.spec_mask()));
                        assert forall|i: int| 0 <= i < kept@.len() implies !(#[trigger] kept@[i] && arrangement@[i]) by {
                            if arrangement@[i] {
                                assert(self.spec_mask()[i]);
                            }
                        }
                        crate::combinations::lemma_true_count_disjoint_or(kept@, arrangement@);
                    }
                }
                kept.add(&arrangement)
            },
            None => arrangement,
        };
        InternalGame {
            grid: Some(grid),
            start_type: game.start_type,
            num_mines: game.num_mines,
            graph: game.graph.clone_graph(),
            answers: Ghost(Seq::empty()),
        }
    }
}

} // verus!
