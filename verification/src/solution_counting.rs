use vstd::prelude::*;
use crate::bits::{true_count, ones_of, lemma_ones_of, lemma_true_count_subset};
use crate::bitset::{BitSet, len_fits};
use crate::arrangements::{ArrangementSet, MineArrangements, sets_view, overlap_count, subset, disjoint_groups, union_seq, minus_all, region, or_seq};
use crate::placements::{has_match, matches_on, lemma_match_region_count, lemma_union_sum, lemma_overlap_or};
use crate::combinations::psum;
use crate::counting::{BigNat, binomial, factorial, n_choose_k_u64, n_choose_k_natural, lemma_binomial_parts};

verus! {

// ---------------------------------------------------------------------------------------------
// Placements of one arrangement

/// The number of ways to place the mines of `a` on the groups that `order` lists, each group
/// taking its number of mines on any of its tiles: the product over those groups of
/// (group size choose mines of `a` in the group).
pub open spec fn weight(a: Seq<bool>, gs: Seq<Seq<bool>>, order: Seq<usize>) -> nat
    decreases order.len(),
{
    if order.len() == 0 {
        1
    } else {
        weight(a, gs, order.drop_last()) * binomial(
            true_count(gs[order.last() as int]),
            overlap_count(gs[order.last() as int], a),
        )
    }
}

/// The placements of the arrangements of `arrs` that have `c` mines.
pub open spec fn count_weight(arrs: Seq<Seq<bool>>, gs: Seq<Seq<bool>>, order: Seq<usize>, c: nat) -> nat
    decreases arrs.len(),
{
    if arrs.len() == 0 {
        0
    } else {
        count_weight(arrs.drop_last(), gs, order, c) + if true_count(arrs.last()) == c {
            weight(arrs.last(), gs, order)
        } else {
            0
        }
    }
}

/// The numbers of mines `0..m` that have placements, each with its number of placements, in
/// increasing order.
pub open spec fn count_list(arrs: Seq<Seq<bool>>, gs: Seq<Seq<bool>>, order: Seq<usize>, m: int) -> Seq<(usize, u64)>
    decreases m,
{
    if m <= 0 {
        Seq::empty()
    } else {
        let w = count_weight(arrs, gs, order, (m - 1) as nat);
        count_list(arrs, gs, order, m - 1) + if w > 0 {
            seq![((m - 1) as usize, w as u64)]
        } else {
            Seq::empty()
        }
    }
}

pub proof fn lemma_binomial_pos(n: nat, k: nat)
    requires
        k <= n,
    ensures
        binomial(n, k) >= 1,
{
    lemma_binomial_parts(n, k);
    let d = factorial(k) * factorial((n - k) as nat);
    assert(d >= 1) by (nonlinear_arith)
        requires
            factorial(k) >= 1,
            factorial((n - k) as nat) >= 1,
            d == factorial(k) * factorial((n - k) as nat),
    ;
    let f = factorial(n);
    assert(f / d >= 1) by (nonlinear_arith)
        requires
            1 <= d <= f,
    ;
}

/// Groups have at least as many tiles as any set has mines on them.
proof fn lemma_overlap_le(g: Seq<bool>, a: Seq<bool>)
    ensures
        overlap_count(g, a) <= true_count(g),
{
    lemma_true_count_subset(Seq::new(g.len(), |i: int| g[i] && a[i]), g);
}

/// Each factor of the weight is at least 1, so a weight over fewer groups is no larger.
proof fn lemma_weight_prefix(a: Seq<bool>, gs: Seq<Seq<bool>>, order: Seq<usize>, j: int)
    requires
        0 <= j <= order.len(),
    ensures
        1 <= weight(a, gs, order.take(j)) <= weight(a, gs, order),
    decreases order.len(),
{
    if j == order.len() {
        assert(order.take(j) =~= order);
        if order.len() > 0 {
            lemma_weight_prefix(a, gs, order.drop_last(), j - 1);
            assert(order.drop_last().take(j - 1) =~= order.drop_last());
            let g = gs[order.last() as int];
            lemma_overlap_le(g, a);
            lemma_binomial_pos(true_count(g), overlap_count(g, a));
            let w = weight(a, gs, order.drop_last());
            let b = binomial(true_count(g), overlap_count(g, a));
            assert(w * b >= 1) by (nonlinear_arith)
                requires
                    w >= 1,
                    b >= 1,
            ;
        }
    } else {
        lemma_weight_prefix(a, gs, order.drop_last(), j);
        assert(order.drop_last().take(j) =~= order.take(j));
        let g = gs[order.last() as int];
        lemma_overlap_le(g, a);
        lemma_binomial_pos(true_count(g), overlap_count(g, a));
        let w = weight(a, gs, order.drop_last());
        let b = binomial(true_count(g), overlap_count(g, a));
        assert(w <= w * b) by (nonlinear_arith)
            requires
                w >= 1,
                b >= 1,
        ;
    }
}

/// The sizes of the groups fit the `u64` factorials, and the placements of each arrangement,
/// times the number of tiles, and the placements for each number of mines fit in a `u64`.
pub open spec fn counts_fit(arrs: Seq<Seq<bool>>, gs: Seq<Seq<bool>>, order: Seq<usize>, n: nat) -> bool {
    &&& forall|j: int| 0 <= j < order.len() ==> factorial(true_count(#[trigger] gs[order[j] as int])) <= u64::MAX
    &&& forall|k: int| 0 <= k < arrs.len() ==> weight(#[trigger] arrs[k], gs, order) * (n + 1) <= u64::MAX
    &&& forall|c: nat| #[trigger] count_weight(arrs, gs, order, c) <= u64::MAX
}

/// The number of ways to place the mines of `arrangement` on the groups of `group_set`.
pub(crate) fn arrangement_count(
    arrangement: &BitSet,
    group_set: &BitSet,
    groups: &Vec<BitSet>,
    group_sizes: &Vec<usize>,
    Ghost(n): Ghost<nat>,
) -> (r: u64)
    requires
        arrangement.wf(),
        group_set.wf(),
        len_fits(group_set@.len()),
        arrangement@.len() == n,
        group_set@.len() == n,
        group_sizes@.len() == groups@.len(),
        forall|g: int| 0 <= g < groups@.len() ==> (#[trigger] groups@[g]).wf() && groups@[g]@.len() == n
            && group_sizes@[g] == true_count(groups@[g]@),
        forall|g: int| 0 <= g < n && #[trigger] group_set@[g] ==> g < groups@.len(),
        forall|j: int| 0 <= j < ones_of(group_set@).len() ==> factorial(
            true_count(#[trigger] sets_view(groups@)[ones_of(group_set@)[j] as int]),
        ) <= u64::MAX,
        weight(arrangement@, sets_view(groups@), ones_of(group_set@)) <= u64::MAX,
    ensures
        r == weight(arrangement@, sets_view(groups@), ones_of(group_set@)),
{
    let ghost gs = sets_view(groups@);
    let order = group_set.iter_ones();
    proof {
        lemma_ones_of(group_set@);
    }
    let mut prod: u64 = 1;
    let mut j: usize = 0;
    while j < order.len()
        invariant
            order@ == ones_of(group_set@),
            gs == sets_view(groups@),
            forall|m: int| 0 <= m < order@.len() ==> #[trigger] order@[m] < n && group_set@[order@[m] as int],
            forall|g: int| 0 <= g < n && #[trigger] group_set@[g] ==> g < groups@.len(),
            group_sizes@.len() == groups@.len(),
            forall|g: int| 0 <= g < groups@.len() ==> (#[trigger] groups@[g]).wf() && groups@[g]@.len() == n
                && group_sizes@[g] == true_count(groups@[g]@),
            forall|j: int| 0 <= j < order@.len() ==> factorial(true_count(#[trigger] gs[order@[j] as int])) <= u64::MAX,
            arrangement.wf(),
            arrangement@.len() == n,
            weight(arrangement@, gs, order@) <= u64::MAX,
            j <= order@.len(),
            prod == weight(arrangement@, gs, order@.take(j as int)),
        decreases order.len() - j,
    {
        let g = order[j];
        proof {
            assert(gs[g as int] == groups@[g as int]@);
        }
        let mines = groups[g].count_overlap_ones(arrangement);
        let size = group_sizes[g];
        proof {
            lemma_overlap_le(gs[g as int], arrangement@);
            assert(factorial(true_count(gs[order@[j as int] as int])) <= u64::MAX);
        }
        let b = n_choose_k_u64(size as u64, mines as u64);
        proof {
            assert(order@.take(j + 1).drop_last() =~= order@.take(j as int));
            lemma_weight_prefix(arrangement@, gs, order@, j + 1);
            assert(weight(arrangement@, gs, order@.take(j + 1)) == prod * b);
        }
        prod = prod * b;
        j = j + 1;
    }
    proof {
        assert(order@.take(order@.len() as int) =~= order@);
    }
    prod
}


proof fn lemma_count_weight_prefix(arrs: Seq<Seq<bool>>, gs: Seq<Seq<bool>>, order: Seq<usize>, c: nat, j: int)
    requires
        0 <= j <= arrs.len(),
    ensures
        count_weight(arrs.take(j), gs, order, c) <= count_weight(arrs, gs, order, c),
    decreases arrs.len(),
{
    if j == arrs.len() {
        assert(arrs.take(j) =~= arrs);
    } else {
        lemma_count_weight_prefix(arrs.drop_last(), gs, order, c, j);
        assert(arrs.drop_last().take(j) =~= arrs.take(j));
    }
}

/// No arrangement has more mines than its region has tiles.
proof fn lemma_count_weight_zero(arrs: Seq<Seq<bool>>, gs: Seq<Seq<bool>>, order: Seq<usize>, c: nat)
    requires
        forall|k: int| 0 <= k < arrs.len() ==> true_count(#[trigger] arrs[k]) != c,
    ensures
        count_weight(arrs, gs, order, c) == 0,
    decreases arrs.len(),
{
    if arrs.len() > 0 {
        lemma_count_weight_zero(arrs.drop_last(), gs, order, c);
    }
}

/// The group facts that counting needs: the groups of the region exist, have one position per
/// tile, and `group_sizes` holds their sizes.
pub open spec fn sizes_ok(groups: Seq<BitSet>, group_sizes: Seq<usize>, n: nat) -> bool {
    &&& group_sizes.len() == groups.len()
    &&& forall|g: int| 0 <= g < groups.len() ==> (#[trigger] groups[g]).wf() && groups[g]@.len() == n
        && group_sizes[g] == true_count(groups[g]@)
}

impl ArrangementSet {
    /// For each number of mines that some arrangement has, the number of placements of the
    /// arrangements with that many mines, in increasing order of the number of mines.
    pub(crate) fn count_subsolutions(&self, groups: &Vec<BitSet>, group_sizes: &Vec<usize>) -> (r: Vec<(usize, u64)>)
        requires
            self.wf_in(self.spec_mask().len(), groups@.len() as nat),
            sizes_ok(groups@, group_sizes@, self.spec_mask().len()),
            counts_fit(self.spec_arrangements(), sets_view(groups@), ones_of(self.spec_groups()), self.spec_mask().len()),
        ensures
            r@ == count_list(
                self.spec_arrangements(),
                sets_view(groups@),
                ones_of(self.spec_groups()),
                true_count(self.spec_mask()) + 1int,
            ),
            forall|k: int| 0 <= k < r@.len() ==> (#[trigger] r@[k]).1 == count_weight(
                self.spec_arrangements(),
                sets_view(groups@),
                ones_of(self.spec_groups()),
                r@[k].0 as nat,
            ) && r@[k].1 > 0,
            forall|a: int, b: int| 0 <= a < b < r@.len() ==> r@[a].0 < r@[b].0,
            forall|c: nat| #[trigger] count_weight(self.spec_arrangements(), sets_view(groups@), ones_of(self.spec_groups()), c)
                > 0 ==> exists|k: int| 0 <= k < r@.len() && r@[k].0 == c,
    {
        let ghost n = self.spec_mask().len();
        let ghost gs = sets_view(groups@);
        let ghost order = ones_of(self.spec_groups());
        let ghost arrs = self.spec_arrangements();
        proof {
            self.lemma_wf_in(n, groups@.len() as nat);
        }
        let mask = self.mask_ref();
        let group_set = self.groups_ref();
        let list = self.arrangements_ref();
        proof {
            crate::bitset::lemma_storage_covers(mask);
        }
        let tcm = mask.count_ones();
        proof {
            crate::bits::lemma_true_count_le(mask@);
        }
        let mut counts: Vec<u64> = Vec::new();
        let mut c: usize = 0;
        while c <= tcm
            invariant
                tcm <= n,
                len_fits(n),
                c <= tcm + 1,
                counts@.len() == c,
                forall|x: int| 0 <= x < c ==> #[trigger] counts@[x] == 0,
            decreases tcm + 1 - c,
        {
            counts.push(0);
            c = c + 1;
        }
        let mut k: usize = 0;
        while k < list.len()
            invariant
                self.wf_in(n, groups@.len() as nat),
                sets_view(list@) == arrs,
                arrs == self.spec_arrangements(),
                forall|m: int| 0 <= m < list@.len() ==> (#[trigger] list@[m]).wf(),
                group_set.wf(),
                group_set@ == self.spec_groups(),
                mask@ == self.spec_mask(),
                tcm == true_count(mask@),
                len_fits(n),
                gs == sets_view(groups@),
                order == ones_of(self.spec_groups()),
                sizes_ok(groups@, group_sizes@, n),
                counts_fit(arrs, gs, order, n),
                counts@.len() == tcm + 1,
                k <= list@.len(),
                forall|x: int| 0 <= x <= tcm ==> #[trigger] counts@[x] == count_weight(arrs.take(k as int), gs, order, x as nat),
            decreases list.len() - k,
        {
            let arr = &list[k];
            proof {
                self.lemma_wf_in(n, groups@.len() as nat);
                assert(arrs[k as int] == arr@);
                assert(arr@.len() == n && subset(arr@, mask@));
                lemma_true_count_subset(arr@, mask@);
                assert(weight(arr@, gs, order) * (n + 1) <= u64::MAX);
                assert(weight(arr@, gs, order) <= u64::MAX) by (nonlinear_arith)
                    requires
                        weight(arr@, gs, order) * (n + 1) <= u64::MAX,
                ;
            }
            let w = arrangement_count(arr, group_set, groups, group_sizes, Ghost(n));
            let mines = arr.count_ones();
            proof {
                assert(arrs.take(k + 1).drop_last() =~= arrs.take(k as int));
                assert(arrs.take(k + 1).last() == arr@);
                lemma_count_weight_prefix(arrs, gs, order, mines as nat, k + 1);
            }
            let v = counts[mines] + w;
            counts.set(mines, v);
            proof {
                assert forall|x: int| 0 <= x <= tcm implies #[trigger] counts@[x] == count_weight(arrs.take(k + 1), gs, order, x as nat) by {
                    assert(arrs.take(k + 1).drop_last() =~= arrs.take(k as int));
                }
            }
            k = k + 1;
        }
        proof {
            assert(arrs.take(list@.len() as int) =~= arrs);
        }
        let mut out: Vec<(usize, u64)> = Vec::new();
        let mut c: usize = 0;
        while c <= tcm
            invariant
                tcm <= n,
                len_fits(n),
                counts@.len() == tcm + 1,
                c <= tcm + 1,
                forall|x: int| 0 <= x <= tcm ==> #[trigger] counts@[x] == count_weight(arrs, gs, order, x as nat),
                forall|m: int| 0 <= m < out@.len() ==> (#[trigger] out@[m]).1 == count_weight(arrs, gs, order, out@[m].0 as nat)
                    && out@[m].1 > 0 && out@[m].0 < c,
                forall|a: int, b: int| 0 <= a < b < out@.len() ==> out@[a].0 < out@[b].0,
                forall|x: nat| x < c && #[trigger] count_weight(arrs, gs, order, x) > 0 ==> exists|m: int|
                    0 <= m < out@.len() && out@[m].0 == x,
                out@ == count_list(arrs, gs, order, c as int),
                forall|x: nat| #[trigger] count_weight(arrs, gs, order, x) <= u64::MAX,
            decreases tcm + 1 - c,
        {
            let ghost before = out@;
            if counts[c] > 0 {
                out.push((c, counts[c]));
            }
            proof {
                assert(out@ =~= count_list(arrs, gs, order, c + 1));
                assert forall|x: nat| x < c + 1 && #[trigger] count_weight(arrs, gs, order, x) > 0 implies exists|m: int|
                    0 <= m < out@.len() && out@[m].0 == x by {
                    if x < c {
                        let m = choose|m: int| 0 <= m < before.len() && before[m].0 == x;
                        assert(out@[m] == before[m]);
                    } else {
                        assert(out@[before.len() as int].0 == x);
                    }
                }
            }
            c = c + 1;
        }
        proof {
            assert forall|x: nat| #[trigger] count_weight(arrs, gs, order, x) > 0 implies exists|m: int|
                0 <= m < out@.len() && out@[m].0 == x by {
                if x > tcm {
                    assert forall|k: int| 0 <= k < arrs.len() implies true_count(#[trigger] arrs[k]) != x by {
                        lemma_true_count_subset(arrs[k], mask@);
                    }
                    lemma_count_weight_zero(arrs, gs, order, x);
                }
            }
        }
        out
    }
}


// ---------------------------------------------------------------------------------------------
// Safe placements per tile

/// What group `order[j]` adds for tile `t`: when the tile is in the group, the placements of
/// `a` in which the tile is safe (the placements, times the group's free tiles, over its size).
pub open spec fn tile_term(a: Seq<bool>, gs: Seq<Seq<bool>>, order: Seq<usize>, t: int, j: int) -> nat {
    let g = gs[order[j] as int];
    if g[t] {
        weight(a, gs, order) * (true_count(g) - overlap_count(g, a)) as nat / true_count(g)
    } else {
        0
    }
}

/// The terms of the first `m` groups for tile `t`.
pub open spec fn tile_share(a: Seq<bool>, gs: Seq<Seq<bool>>, order: Seq<usize>, t: int, m: int) -> nat
    decreases m,
{
    if m <= 0 {
        0
    } else {
        tile_share(a, gs, order, t, m - 1) + tile_term(a, gs, order, t, m - 1)
    }
}

/// The placements, among the arrangements with `c` mines, in which tile `t` is safe.
pub open spec fn tile_count_weight(arrs: Seq<Seq<bool>>, gs: Seq<Seq<bool>>, order: Seq<usize>, c: nat, t: int) -> nat
    decreases arrs.len(),
{
    if arrs.len() == 0 {
        0
    } else {
        tile_count_weight(arrs.drop_last(), gs, order, c, t) + if true_count(arrs.last()) == c {
            tile_share(arrs.last(), gs, order, t, order.len() as int)
        } else {
            0
        }
    }
}

/// The safe placements of each tile among the arrangements with `c` mines, on `n` tiles.
pub open spec fn tile_row(arrs: Seq<Seq<bool>>, gs: Seq<Seq<bool>>, order: Seq<usize>, c: nat, n: nat) -> Seq<u64> {
    Seq::new(n, |t: int| tile_count_weight(arrs, gs, order, c, t) as u64)
}

/// The numbers of mines `0..m` for which some of the `n` tiles has safe placements, each with
/// the safe placements of every tile, in increasing order.
pub open spec fn tile_list(arrs: Seq<Seq<bool>>, gs: Seq<Seq<bool>>, order: Seq<usize>, n: nat, m: int) -> Seq<(usize, Seq<u64>)>
    decreases m,
{
    if m <= 0 {
        Seq::empty()
    } else {
        let c = (m - 1) as nat;
        tile_list(arrs, gs, order, n, m - 1) + if exists|t: int| 0 <= t < n && #[trigger] tile_count_weight(arrs, gs, order, c, t) > 0 {
            seq![((m - 1) as usize, tile_row(arrs, gs, order, c, n))]
        } else {
            Seq::empty()
        }
    }
}

/// The rows of a list of rows, as sequences.
pub open spec fn rows_view(r: Seq<(usize, Vec<u64>)>) -> Seq<(usize, Seq<u64>)> {
    Seq::new(r.len(), |k: int| (r[k].0, r[k].1@))
}

proof fn lemma_tile_term_le(a: Seq<bool>, gs: Seq<Seq<bool>>, order: Seq<usize>, t: int, j: int)
    requires
        0 <= t < gs[order[j] as int].len(),
    ensures
        tile_term(a, gs, order, t, j) <= weight(a, gs, order),
{
    let g = gs[order[j] as int];
    if g[t] {
        lemma_overlap_le(g, a);
        let w = weight(a, gs, order);
        let s = true_count(g);
        let f = (s - overlap_count(g, a)) as nat;
        if 0 <= t < g.len() {
            crate::bits::lemma_true_count_zero(g);
        }
        if s > 0 {
            assert(w * f / s <= w) by (nonlinear_arith)
                requires
                    f <= s,
                    s > 0,
            ;
        }
    }
}

/// A tile lies in at most one group, so its share is at most the arrangement's placements.
proof fn lemma_tile_share_le(a: Seq<bool>, gs: Seq<Seq<bool>>, order: Seq<usize>, t: int, m: int)
    requires
        0 <= m <= order.len(),
        disjoint_groups(gs),
        forall|j: int| 0 <= j < order.len() ==> #[trigger] order[j] < gs.len(),
        forall|x: int, y: int| 0 <= x < y < order.len() ==> order[x] < order[y],
        0 <= t,
        forall|g: int| 0 <= g < gs.len() ==> (#[trigger] gs[g]).len() > t,
    ensures
        tile_share(a, gs, order, t, m) <= if exists|j: int| 0 <= j < m && #[trigger] gs[order[j] as int][t] {
            weight(a, gs, order)
        } else {
            0
        },
    decreases m,
{
    if m > 0 {
        lemma_tile_share_le(a, gs, order, t, m - 1);
        assert(gs[order[m - 1] as int].len() > t);
        lemma_tile_term_le(a, gs, order, t, m - 1);
        if exists|j: int| 0 <= j < m - 1 && #[trigger] gs[order[j] as int][t] {
            let j = choose|j: int| 0 <= j < m - 1 && #[trigger] gs[order[j] as int][t];
            assert(order[j] < order[m - 1]);
            assert(!(gs[order[j] as int][t] && gs[order[m - 1] as int][t]));
            assert(tile_term(a, gs, order, t, m - 1) == 0);
        }
        if gs[order[m - 1] as int][t] {
            assert(exists|j: int| 0 <= j < m && #[trigger] gs[order[j] as int][t]);
        }
    }
}

proof fn lemma_tile_count_le(arrs: Seq<Seq<bool>>, gs: Seq<Seq<bool>>, order: Seq<usize>, c: nat, t: int)
    requires
        disjoint_groups(gs),
        forall|j: int| 0 <= j < order.len() ==> #[trigger] order[j] < gs.len(),
        forall|x: int, y: int| 0 <= x < y < order.len() ==> order[x] < order[y],
        0 <= t,
        forall|g: int| 0 <= g < gs.len() ==> (#[trigger] gs[g]).len() > t,
    ensures
        tile_count_weight(arrs, gs, order, c, t) <= count_weight(arrs, gs, order, c),
    decreases arrs.len(),
{
    if arrs.len() > 0 {
        lemma_tile_count_le(arrs.drop_last(), gs, order, c, t);
        lemma_tile_share_le(arrs.last(), gs, order, t, order.len() as int);
    }
}

proof fn lemma_tile_count_prefix(arrs: Seq<Seq<bool>>, gs: Seq<Seq<bool>>, order: Seq<usize>, c: nat, t: int, j: int)
    requires
        0 <= j <= arrs.len(),
    ensures
        tile_count_weight(arrs.take(j), gs, order, c, t) <= tile_count_weight(arrs, gs, order, c, t),
    decreases arrs.len(),
{
    if j == arrs.len() {
        assert(arrs.take(j) =~= arrs);
    } else {
        lemma_tile_count_prefix(arrs.drop_last(), gs, order, c, t, j);
        assert(arrs.drop_last().take(j) =~= arrs.take(j));
    }
}

/// Adds `v` to the entries of `row` at the positions listed in `tiles`.
fn add_at(row: &mut Vec<u64>, tiles: &Vec<usize>, v: u64, Ghost(bound): Ghost<Seq<nat>>)
    requires
        forall|q: int| 0 <= q < tiles@.len() ==> #[trigger] tiles@[q] < old(row)@.len(),
        tiles@.no_duplicates(),
        bound.len() == old(row)@.len(),
        forall|t: int| 0 <= t < old(row)@.len() ==> old(row)@[t] + (if tiles@.contains(t as usize) { v as nat } else { 0 })
            <= #[trigger] bound[t] <= u64::MAX,
    ensures
        final(row)@.len() == old(row)@.len(),
        forall|t: int| 0 <= t < final(row)@.len() ==> #[trigger] final(row)@[t] == old(row)@[t] + (if tiles@.contains(t as usize) {
            v as nat
        } else {
            0
        }),
{
    let ghost r0 = row@;
    let width = row.len();
    assert(r0.len() == width);
    let mut q: usize = 0;
    while q < tiles.len()
        invariant
            forall|q: int| 0 <= q < tiles@.len() ==> #[trigger] tiles@[q] < r0.len(),
            tiles@.no_duplicates(),
            bound.len() == r0.len(),
            r0.len() <= usize::MAX,
            forall|t: int| 0 <= t < r0.len() ==> r0[t] + (if tiles@.contains(t as usize) { v as nat } else { 0 })
                <= #[trigger] bound[t] <= u64::MAX,
            row@.len() == r0.len(),
            q <= tiles@.len(),
            forall|t: int| 0 <= t < r0.len() ==> #[trigger] row@[t] == r0[t] + (if tiles@.take(q as int).contains(t as usize) {
                v as nat
            } else {
                0
            }),
        decreases tiles.len() - q,
    {
        let t = tiles[q];
        proof {
            assert(tiles@.contains(t));
            assert(!tiles@.take(q as int).contains(t)) by {
                if tiles@.take(q as int).contains(t) {
                    let m = choose|m: int| 0 <= m < q && #[trigger] tiles@.take(q as int)[m] == t;
                    assert(tiles@[m] == tiles@[q as int]);
                }
            }
            assert(bound[t as int] <= u64::MAX);
        }
        let nv = row[t] + v;
        row.set(t, nv);
        proof {
            assert(tiles@.take(q + 1) =~= tiles@.take(q as int).push(t));
            assert forall|x: int| 0 <= x < r0.len() implies #[trigger] row@[x] == r0[x] + (if tiles@.take(q + 1).contains(x as usize) {
                v as nat
            } else {
                0
            }) by {
                if x != t {
                    if tiles@.take(q + 1).contains(x as usize) {
                        let m = choose|m: int| 0 <= m < q + 1 && #[trigger] tiles@.take(q + 1)[m] == x as usize;
                        assert(tiles@.take(q as int)[m] == x as usize);
                    }
                    if tiles@.take(q as int).contains(x as usize) {
                        let m = choose|m: int| 0 <= m < q && #[trigger] tiles@.take(q as int)[m] == x as usize;
                        assert(tiles@.take(q + 1)[m] == x as usize);
                    }
                } else {
                    assert(tiles@.take(q + 1)[q as int] == t);
                }
            }
        }
        q = q + 1;
    }
    assert(tiles@.take(tiles@.len() as int) =~= tiles@);
}


proof fn lemma_tile_share_mono(a: Seq<bool>, gs: Seq<Seq<bool>>, order: Seq<usize>, t: int, m1: int, m2: int)
    requires
        0 <= m1 <= m2,
    ensures
        tile_share(a, gs, order, t, m1) <= tile_share(a, gs, order, t, m2),
    decreases m2,
{
    if m2 > m1 {
        lemma_tile_share_mono(a, gs, order, t, m1, m2 - 1);
    }
}

impl ArrangementSet {
    /// For each number of mines, and each tile, the placements of the arrangements with that
    /// many mines in which the tile is safe; only the numbers of mines with some nonzero entry,
    /// in increasing order.
    pub(crate) fn count_tile_safes(
        &self,
        groups: &Vec<BitSet>,
        group_sizes: &Vec<usize>,
        num_tiles: usize,
    ) -> (r: Vec<(usize, Vec<u64>)>)
        requires
            self.wf_in(num_tiles as nat, groups@.len() as nat),
            sizes_ok(groups@, group_sizes@, num_tiles as nat),
            disjoint_groups(sets_view(groups@)),
            counts_fit(self.spec_arrangements(), sets_view(groups@), ones_of(self.spec_groups()), num_tiles as nat),
        ensures
            rows_view(r@) == tile_list(
                self.spec_arrangements(),
                sets_view(groups@),
                ones_of(self.spec_groups()),
                num_tiles as nat,
                num_tiles + 1,
            ),
            forall|k: int| 0 <= k < r@.len() ==> {
                &&& (#[trigger] r@[k]).0 <= num_tiles
                &&& r@[k].1@.len() == num_tiles
                &&& forall|t: int| 0 <= t < num_tiles ==> #[trigger] r@[k].1@[t] == tile_count_weight(
                    self.spec_arrangements(),
                    sets_view(groups@),
                    ones_of(self.spec_groups()),
                    r@[k].0 as nat,
                    t,
                )
                &&& exists|t: int| 0 <= t < num_tiles && r@[k].1@[t] > 0
            },
            forall|a: int, b: int| 0 <= a < b < r@.len() ==> r@[a].0 < r@[b].0,
            forall|c: nat, t: int| c <= num_tiles && 0 <= t < num_tiles && #[trigger] tile_count_weight(
                self.spec_arrangements(),
                sets_view(groups@),
                ones_of(self.spec_groups()),
                c,
                t,
            ) > 0 ==> exists|k: int| 0 <= k < r@.len() && r@[k].0 == c,
    {
        let n = num_tiles;
        let ghost gs = sets_view(groups@);
        let ghost order = ones_of(self.spec_groups());
        let ghost arrs = self.spec_arrangements();
        proof {
            self.lemma_wf_in(n as nat, groups@.len() as nat);
        }
        let group_set = self.groups_ref();
        let list = self.arrangements_ref();
        let ord = group_set.iter_ones();
        proof {
            crate::bitset::lemma_storage_covers(group_set);
            lemma_ones_of(group_set@);
            assert forall|g: int| 0 <= g < gs.len() implies (#[trigger] gs[g]).len() == n by {
                assert(gs[g] == groups@[g]@);
            }
        }
        let mut counts: Vec<Vec<u64>> = Vec::new();
        let mut c: usize = 0;
        while c <= n
            invariant
                len_fits(n as nat),
                c <= n + 1,
                counts@.len() == c,
                forall|x: int, t: int| 0 <= x < c && 0 <= t < n ==> #[trigger] counts@[x]@[t] == 0,
                forall|x: int| 0 <= x < c ==> (#[trigger] counts@[x])@.len() == n,
            decreases n + 1 - c,
        {
            let mut row: Vec<u64> = Vec::new();
            let mut t: usize = 0;
            while t < n
                invariant
                    t <= n,
                    row@.len() == t,
                    forall|x: int| 0 <= x < t ==> #[trigger] row@[x] == 0,
                decreases n - t,
            {
                row.push(0);
                t = t + 1;
            }
            counts.push(row);
            c = c + 1;
        }
        let mut k: usize = 0;
        while k < list.len()
            invariant
                self.wf_in(n as nat, groups@.len() as nat),
                arrs == self.spec_arrangements(),
                sets_view(list@) == arrs,
                forall|m: int| 0 <= m < list@.len() ==> (#[trigger] list@[m]).wf(),
                group_set.wf(),
                group_set@ == self.spec_groups(),
                ord@ == order,
                order == ones_of(self.spec_groups()),
                forall|m: int| 0 <= m < ord@.len() ==> #[trigger] ord@[m] < n && group_set@[ord@[m] as int],
                forall|x: int, y: int| 0 <= x < y < ord@.len() ==> ord@[x] < ord@[y],
                len_fits(n as nat),
                gs == sets_view(groups@),
                forall|g: int| 0 <= g < gs.len() ==> (#[trigger] gs[g]).len() == n,
                sizes_ok(groups@, group_sizes@, n as nat),
                disjoint_groups(gs),
                counts_fit(arrs, gs, order, n as nat),
                counts@.len() == n + 1,
                forall|x: int| 0 <= x <= n ==> (#[trigger] counts@[x])@.len() == n,
                k <= list@.len(),
                forall|x: int, t: int| 0 <= x <= n && 0 <= t < n ==> #[trigger] counts@[x]@[t] == tile_count_weight(
                    arrs.take(k as int),
                    gs,
                    order,
                    x as nat,
                    t,
                ),
            decreases list.len() - k,
        {
            let arr = &list[k];
            proof {
                self.lemma_wf_in(n as nat, groups@.len() as nat);
                assert(arrs[k as int] == arr@);
                assert(arr@.len() == n && subset(arr@, self.spec_mask()));
                lemma_true_count_subset(arr@, self.spec_mask());
                crate::bits::lemma_true_count_le(self.spec_mask());
                assert(weight(arr@, gs, order) * (n + 1) <= u64::MAX);
                assert(weight(arr@, gs, order) <= u64::MAX) by (nonlinear_arith)
                    requires
                        weight(arr@, gs, order) * (n + 1) <= u64::MAX,
                ;
                assert forall|g: int| 0 <= g < n && #[trigger] group_set@[g] implies g < groups@.len() by {}
            }
            let w = arrangement_count(arr, group_set, groups, group_sizes, Ghost(n as nat));
            let total_mines = arr.count_ones();
            let ghost c0 = total_mines as int;
            let mut row: Vec<u64> = Vec::new();
            counts.set_and_swap(total_mines, &mut row);
            let ghost base = row@;
            proof {
                assert(arrs.take(k + 1).drop_last() =~= arrs.take(k as int));
                assert(arrs.take(k + 1).last() == arr@);
            }
            let mut j: usize = 0;
            while j < ord.len()
                invariant
                    ord@ == order,
                    forall|m: int| 0 <= m < ord@.len() ==> #[trigger] ord@[m] < n && group_set@[ord@[m] as int],
                    forall|x: int, y: int| 0 <= x < y < ord@.len() ==> ord@[x] < ord@[y],
                    forall|g: int| 0 <= g < n && #[trigger] group_set@[g] ==> g < groups@.len(),
                    gs == sets_view(groups@),
                    forall|g: int| 0 <= g < gs.len() ==> (#[trigger] gs[g]).len() == n,
                    sizes_ok(groups@, group_sizes@, n as nat),
                    disjoint_groups(gs),
                    arr.wf(),
                    arr@.len() == n,
                    w == weight(arr@, gs, order),
                    w * (n + 1) <= u64::MAX,
                    c0 == true_count(arr@),
                    0 <= c0 <= n,
                    counts_fit(arrs, gs, order, n as nat),
                    k < arrs.len(),
                    arrs.take(k + 1).drop_last() == arrs.take(k as int),
                    arrs.take(k + 1).last() == arr@,
                    base.len() == n,
                    forall|t: int| 0 <= t < n ==> #[trigger] base[t] == tile_count_weight(arrs.take(k as int), gs, order, c0 as nat, t),
                    row@.len() == n,
                    j <= ord@.len(),
                    forall|t: int| 0 <= t < n ==> #[trigger] row@[t] == base[t] + tile_share(arr@, gs, order, t, j as int),
                decreases ord.len() - j,
            {
                let g = ord[j];
                let size = group_sizes[g];
                proof {
                    assert(gs[g as int] == groups@[g as int]@);
                }
                if size > 0 {
                    let mines = groups[g].count_overlap_ones(arr);
                    proof {
                        lemma_overlap_le(gs[g as int], arr@);
                        crate::bits::lemma_true_count_le(gs[g as int]);
                        assert(w * (size - mines) <= w * (n + 1)) by (nonlinear_arith)
                            requires
                                size - mines <= n + 1,
                        ;
                    }
                    let v = w * ((size - mines) as u64) / (size as u64);
                    let tiles = groups[g].iter_ones();
                    let ghost bound = Seq::new(n as nat, |t: int| tile_count_weight(arrs, gs, order, c0 as nat, t));
                    proof {
                        crate::bitset::lemma_storage_covers(&groups[g as int]);
                        lemma_ones_of(gs[g as int]);
                        assert forall|t: int| 0 <= t < n implies row@[t] + (if tiles@.contains(t as usize) { v as nat } else { 0 })
                            <= #[trigger] bound[t] <= u64::MAX by {
                            assert(tiles@.contains(t as usize) == gs[g as int][t]);
                            assert(tile_term(arr@, gs, order, t, j as int) == if gs[g as int][t] { v as nat } else { 0 });
                            lemma_tile_share_mono(arr@, gs, order, t, j + 1, order.len() as int);
                            lemma_tile_count_prefix(arrs, gs, order, c0 as nat, t, k + 1);
                            lemma_tile_count_le(arrs, gs, order, c0 as nat, t);
                        }
                        assert(tiles@.no_duplicates()) by {
                            assert forall|x: int, y: int| 0 <= x < tiles@.len() && 0 <= y < tiles@.len() && x != y implies tiles@[x] != tiles@[y] by {
                                if x < y {
                                    assert(tiles@[x] < tiles@[y]);
                                } else {
                                    assert(tiles@[y] < tiles@[x]);
                                }
                            }
                        }
                        assert(bound.len() == n);
                    }
                    add_at(&mut row, &tiles, v, Ghost(bound));
                    proof {
                        assert forall|t: int| 0 <= t < n implies #[trigger] row@[t] == base[t] + tile_share(arr@, gs, order, t, j + 1) by {
                            assert(tiles@.contains(t as usize) == gs[g as int][t]);
                            assert(tile_term(arr@, gs, order, t, j as int) == if gs[g as int][t] { v as nat } else { 0 });
                        }
                    }
                } else {
                    proof {
                        assert forall|t: int| 0 <= t < n implies #[trigger] row@[t] == base[t] + tile_share(arr@, gs, order, t, j + 1) by {
                            if gs[g as int][t] {
                                crate::bits::lemma_true_count_zero(gs[g as int]);
                            }
                        }
                    }
                }
                j = j + 1;
            }
            let ghost row1 = row@;
            counts.set_and_swap(total_mines, &mut row);
            proof {
                assert forall|x: int, t: int| 0 <= x <= n && 0 <= t < n implies #[trigger] counts@[x]@[t] == tile_count_weight(
                    arrs.take(k + 1),
                    gs,
                    order,
                    x as nat,
                    t,
                ) by {
                    if x == c0 {
                        assert(counts@[x]@ == row1);
                    }
                }
            }
            k = k + 1;
        }
        proof {
            assert(arrs.take(list@.len() as int) =~= arrs);
            assert forall|x: int, t: int| 0 <= t < n implies #[trigger] tile_count_weight(arrs, gs, order, x as nat, t) <= u64::MAX by {
                lemma_tile_count_le(arrs, gs, order, x as nat, t);
            }
        }
        let mut out: Vec<(usize, Vec<u64>)> = Vec::new();
        let mut c: usize = 0;
        while c <= n
            invariant
                len_fits(n as nat),
                counts@.len() == n + 1,
                c <= n + 1,
                forall|x: int| c <= x <= n ==> (#[trigger] counts@[x])@.len() == n,
                forall|x: int, t: int| c <= x <= n && 0 <= t < n ==> #[trigger] counts@[x]@[t] == tile_count_weight(arrs, gs, order, x as nat, t),
                forall|m: int| 0 <= m < out@.len() ==> {
                    &&& (#[trigger] out@[m]).0 < c
                    &&& out@[m].1@.len() == n
                    &&& forall|t: int| 0 <= t < n ==> #[trigger] out@[m].1@[t] == tile_count_weight(arrs, gs, order, out@[m].0 as nat, t)
                    &&& exists|t: int| 0 <= t < n && out@[m].1@[t] > 0
                },
                forall|a: int, b: int| 0 <= a < b < out@.len() ==> out@[a].0 < out@[b].0,
                forall|x: nat, t: int| x < c && 0 <= t < n && #[trigger] tile_count_weight(arrs, gs, order, x, t) > 0
                    ==> exists|m: int| 0 <= m < out@.len() && out@[m].0 == x,
                rows_view(out@) == tile_list(arrs, gs, order, n as nat, c as int),
                forall|x: int, t: int| 0 <= t < n ==> #[trigger] tile_count_weight(arrs, gs, order, x as nat, t) <= u64::MAX,
            decreases n + 1 - c,
        {
            let mut row: Vec<u64> = Vec::new();
            counts.set_and_swap(c, &mut row);
            let mut any = false;
            let mut t: usize = 0;
            proof {
                assert(row@.len() == n);
            }
            while t < row.len()
                invariant
                    row@.len() == n,
                    t <= row@.len(),
                    any == exists|x: int| 0 <= x < t && row@[x] > 0,
                decreases row.len() - t,
            {
                if row[t] > 0 {
                    any = true;
                }
                t = t + 1;
            }
            let ghost before = out@;
            let ghost rv = row@;
            if any {
                out.push((c, row));
            }
            proof {
                assert(rv =~= tile_row(arrs, gs, order, c as nat, n as nat));
                if any {
                    let t = choose|t: int| 0 <= t < rv.len() && rv[t] > 0;
                    assert(tile_count_weight(arrs, gs, order, c as nat, t) > 0);
                } else {
                    assert forall|t: int| 0 <= t < n implies !(#[trigger] tile_count_weight(arrs, gs, order, c as nat, t) > 0) by {
                        assert(!(rv[t] > 0));
                    }
                }
                assert(rows_view(out@) =~= tile_list(arrs, gs, order, n as nat, c + 1));
                assert forall|x: nat, t: int| x < c + 1 && 0 <= t < n && #[trigger] tile_count_weight(arrs, gs, order, x, t) > 0
                    implies exists|m: int| 0 <= m < out@.len() && out@[m].0 == x by {
                    if x < c {
                        let m = choose|m: int| 0 <= m < before.len() && before[m].0 == x;
                        assert(out@[m] == before[m]);
                    } else {
                        assert(rv[t] > 0);
                        assert(out@[before.len() as int].0 == x);
                    }
                }
                assert forall|m: int| 0 <= m < out@.len() implies {
                    &&& (#[trigger] out@[m]).0 < c + 1
                    &&& out@[m].1@.len() == n
                    &&& forall|t: int| 0 <= t < n ==> #[trigger] out@[m].1@[t] == tile_count_weight(arrs, gs, order, out@[m].0 as nat, t)
                    &&& exists|t: int| 0 <= t < n && out@[m].1@[t] > 0
                } by {
                    if m < before.len() {
                        assert(out@[m] == before[m]);
                    } else {
                        assert(out@[m].0 == c && out@[m].1@ == rv);
                        assert(rv.len() == n);
                        let t = choose|t: int| 0 <= t < row@.len() && row@[t] > 0;
                        assert(out@[m].1@[t] > 0);
                    }
                }
            }
            c = c + 1;
        }
        out
    }
}


// ---------------------------------------------------------------------------------------------
// Choosing one entry per region

/// The index vectors that pick an entry `v[i] < lens[i]` for every position, extending `prefix`
/// (the picks of the positions before `k`), with position `k` starting at `e`; the first
/// positions change slowest.
pub open spec fn index_vectors(lens: Seq<nat>, k: int, e: int, prefix: Seq<usize>) -> Seq<Seq<usize>>
    decreases lens.len() - k, (if 0 <= k < lens.len() { lens[k] - e } else { 0 }),
{
    if k < 0 || k >= lens.len() {
        seq![prefix]
    } else if e < 0 || e >= lens[k] {
        Seq::empty()
    } else {
        index_vectors(lens, k + 1, 0, prefix.push(e as usize)) + index_vectors(lens, k, e + 1, prefix)
    }
}

/// The number of mines of a pick of per-region entries.
pub open spec fn sum_mines(entries: Seq<(usize, u64)>) -> nat
    decreases entries.len(),
{
    if entries.len() == 0 {
        0
    } else {
        sum_mines(entries.drop_last()) + entries.last().0 as nat
    }
}

/// The product of the placement counts of a pick of per-region entries.
pub open spec fn prod_counts(entries: Seq<(usize, u64)>) -> nat
    decreases entries.len(),
{
    if entries.len() == 0 {
        1
    } else {
        prod_counts(entries.drop_last()) * entries.last().1 as nat
    }
}

/// The entries that the index vector `v` picks.
pub open spec fn picked(lists: Seq<Seq<(usize, u64)>>, v: Seq<usize>) -> Seq<(usize, u64)> {
    Seq::new(v.len(), |k: int| lists[k][v[k] as int])
}

/// For a pick whose mines leave for the `unc` tiles outside every region a number of mines they
/// can take, the number of whole-board placements (the regions' placements times the ways to
/// place the rest outside), with the pick.
pub open spec fn solution_entry(lists: Seq<Seq<(usize, u64)>>, v: Seq<usize>, rem: nat, unc: nat) -> Option<(nat, Seq<(usize, u64)>)> {
    let entries = picked(lists, v);
    let used = sum_mines(entries);
    if used <= rem && rem - used <= unc {
        Some((prod_counts(entries) * binomial(unc, (rem - used) as nat), entries))
    } else {
        None
    }
}

/// The entries of the picks `vs` that leave a possible number of mines outside the regions.
pub open spec fn solution_list(lists: Seq<Seq<(usize, u64)>>, vs: Seq<Seq<usize>>, rem: nat, unc: nat) -> Seq<(nat, Seq<(usize, u64)>)>
    decreases vs.len(),
{
    if vs.len() == 0 {
        Seq::empty()
    } else {
        solution_list(lists, vs.drop_last(), rem, unc) + match solution_entry(lists, vs.last(), rem, unc) {
            Some(x) => seq![x],
            None => Seq::empty(),
        }
    }
}

/// The lengths of a list of lists.
pub open spec fn list_lens<T>(lists: Seq<Seq<T>>) -> Seq<nat> {
    Seq::new(lists.len(), |k: int| lists[k].len())
}

proof fn lemma_solution_list_append(lists: Seq<Seq<(usize, u64)>>, a: Seq<Seq<usize>>, b: Seq<Seq<usize>>, rem: nat, unc: nat)
    ensures
        solution_list(lists, a + b, rem, unc) == solution_list(lists, a, rem, unc) + solution_list(lists, b, rem, unc),
    decreases b.len(),
{
    if b.len() == 0 {
        assert(a + b =~= a);
    } else {
        assert((a + b).drop_last() =~= a + b.drop_last());
        lemma_solution_list_append(lists, a, b.drop_last(), rem, unc);
    }
}

/// The sum of the whole-board placement counts of a list.
pub open spec fn sum_values(s: Seq<(nat, Seq<(usize, u64)>)>) -> nat
    decreases s.len(),
{
    if s.len() == 0 {
        0
    } else {
        sum_values(s.drop_last()) + s.last().0
    }
}


/// The views of a list of vectors.
pub open spec fn vecs_view<T>(v: Seq<Vec<T>>) -> Seq<Seq<T>> {
    Seq::new(v.len(), |k: int| v[k]@)
}

/// The views of a list of whole-board placement counts with their picks.
pub open spec fn solutions_view(out: Seq<(BigNat, Vec<(usize, u64)>)>) -> Seq<(nat, Seq<(usize, u64)>)> {
    Seq::new(out.len(), |i: int| (out[i].0@, out[i].1@))
}

/// Unfolds the picks of position `k` one entry at a time.
proof fn lemma_index_vectors_step(lens: Seq<nat>, k: int, e: int, prefix: Seq<usize>)
    requires
        0 <= k < lens.len(),
        0 <= e < lens[k],
    ensures
        index_vectors(lens, k, e, prefix) == index_vectors(lens, k + 1, 0, prefix.push(e as usize)) + index_vectors(
            lens,
            k,
            e + 1,
            prefix,
        ),
{
}

fn copy_entries(v: &Vec<(usize, u64)>) -> (r: Vec<(usize, u64)>)
    ensures
        r@ == v@,
{
    let mut out: Vec<(usize, u64)> = Vec::new();
    let mut i: usize = 0;
    while i < v.len()
        invariant
            i <= v@.len(),
            out@ == v@.take(i as int),
        decreases v.len() - i,
    {
        out.push(v[i]);
        i = i + 1;
        assert(out@ =~= v@.take(i as int));
    }
    assert(v@.take(v@.len() as int) =~= v@);
    out
}

/// Appends, in order, the whole-board placement counts of the picks that extend `chosen` (the
/// entries that `prefix` picks), with `used` their mines (`None` past `usize::MAX`) and `prod`
/// the product of their placements.
fn collect_solutions(
    lists: &Vec<Vec<(usize, u64)>>,
    chosen: &mut Vec<(usize, u64)>,
    used: Option<usize>,
    prod: &BigNat,
    rem: usize,
    unc: usize,
    out: &mut Vec<(BigNat, Vec<(usize, u64)>)>,
    Ghost(prefix): Ghost<Seq<usize>>,
)
    requires
        prefix.len() == old(chosen)@.len(),
        prefix.len() <= lists@.len(),
        forall|i: int| 0 <= i < prefix.len() ==> #[trigger] prefix[i] < lists@[i]@.len(),
        old(chosen)@ == picked(vecs_view(lists@), prefix),
        match used {
            Some(u) => u == sum_mines(old(chosen)@),
            None => sum_mines(old(chosen)@) > usize::MAX,
        },
        prod@ == prod_counts(old(chosen)@),
    ensures
        final(chosen)@ == old(chosen)@,
        solutions_view(final(out)@) == solutions_view(old(out)@) + solution_list(
            vecs_view(lists@),
            index_vectors(list_lens(vecs_view(lists@)), prefix.len() as int, 0, prefix),
            rem as nat,
            unc as nat,
        ),
    decreases lists@.len() - old(chosen)@.len(),
{
    let ghost lv = vecs_view(lists@);
    let ghost lens = list_lens(lv);
    let k = chosen.len();
    if k == lists.len() {
        let ghost o0 = out@;
        proof {
            let one = index_vectors(lens, k as int, 0, prefix);
            assert(one == seq![prefix]);
            assert(one.drop_last() =~= Seq::<Seq<usize>>::empty());
            assert(picked(lv, prefix) == chosen@);
        }
        match used {
            Some(u) => {
                if u <= rem && rem - u <= unc {
                    let ways = n_choose_k_natural(unc as u64, (rem - u) as u64);
                    let value = prod.mul(&ways);
                    let entries = copy_entries(chosen);
                    out.push((value, entries));
                    proof {
                        assert(solutions_view(out@) =~= solutions_view(o0).push((value@, entries@)));
                    }
                } else {
                    assert(solutions_view(out@) =~= solutions_view(o0));
                }
            },
            None => {
                assert(solutions_view(out@) =~= solutions_view(o0));
            },
        }
        proof {
            let one = index_vectors(lens, k as int, 0, prefix);
            assert(one == seq![prefix]);
            assert(one.drop_last() =~= Seq::<Seq<usize>>::empty());
            assert(one.last() == prefix);
            assert(solution_list(lv, one.drop_last(), rem as nat, unc as nat) =~= Seq::empty());
            assert(solution_list(lv, one, rem as nat, unc as nat) =~= match solution_entry(lv, prefix, rem as nat, unc as nat) {
                Some(x) => seq![x],
                None => Seq::empty(),
            });
        }
        return;
    }
    let ghost o0 = out@;
    let ghost ch0 = chosen@;
    let mut e: usize = 0;
    proof {
        assert(solutions_view(o0) + solution_list(lv, index_vectors(lens, k as int, 0, prefix), rem as nat, unc as nat)
            == solutions_view(out@) + solution_list(lv, index_vectors(lens, k as int, 0, prefix), rem as nat, unc as nat));
    }
    while e < lists[k].len()
        invariant
            k < lists@.len(),
            lv == vecs_view(lists@),
            lens == list_lens(lv),
            chosen@ == ch0,
            ch0 == old(chosen)@,
            prefix.len() == k,
            forall|i: int| 0 <= i < prefix.len() ==> #[trigger] prefix[i] < lists@[i]@.len(),
            ch0 == picked(lv, prefix),
            match used {
                Some(u) => u == sum_mines(ch0),
                None => sum_mines(ch0) > usize::MAX,
            },
            prod@ == prod_counts(ch0),
            e <= lists@[k as int]@.len(),
            solutions_view(o0) + solution_list(lv, index_vectors(lens, k as int, 0, prefix), rem as nat, unc as nat)
                == solutions_view(out@) + solution_list(lv, index_vectors(lens, k as int, e as int, prefix), rem as nat, unc as nat),
        decreases lists@[k as int]@.len() - e,
    {
        let entry = lists[k][e];
        let next_used = match used {
            Some(u) => u.checked_add(entry.0),
            None => None,
        };
        let next_prod = prod.mul(&BigNat::from_u64(entry.1));
        chosen.push(entry);
        let ghost p1 = prefix.push(e as usize);
        proof {
            assert(chosen@.drop_last() == ch0);
            assert(chosen@ =~= picked(lv, p1)) by {
                assert forall|i: int| 0 <= i < p1.len() implies chosen@[i] == lv[i][p1[i] as int] by {
                    if i < k {
                        assert(ch0[i] == picked(lv, prefix)[i]);
                    }
                }
            }
            assert forall|i: int| 0 <= i < p1.len() implies #[trigger] p1[i] < lists@[i]@.len() by {
                if i < k {
                    assert(p1[i] == prefix[i]);
                }
            }
        }
        let ghost o1 = out@;
        collect_solutions(lists, chosen, next_used, &next_prod, rem, unc, out, Ghost(p1));
        chosen.pop();
        proof {
            assert(chosen@ =~= ch0);
            lemma_index_vectors_step(lens, k as int, e as int, prefix);
            lemma_solution_list_append(
                lv,
                index_vectors(lens, k + 1, 0, p1),
                index_vectors(lens, k as int, e + 1, prefix),
                rem as nat,
                unc as nat,
            );
        }
        e = e + 1;
    }
    proof {
        assert(index_vectors(lens, k as int, e as int, prefix) =~= Seq::<Seq<usize>>::empty());
        assert(solution_list(lv, Seq::<Seq<usize>>::empty(), rem as nat, unc as nat) =~= Seq::empty());
    }
}


// ---------------------------------------------------------------------------------------------
// An admitted placement is counted

/// An arrangement of `arrs` with `c` mines gives the placements with `c` mines at least its own
/// (at least one).
proof fn lemma_count_weight_has(arrs: Seq<Seq<bool>>, gs: Seq<Seq<bool>>, order: Seq<usize>, a: Seq<bool>)
    requires
        arrs.contains(a),
    ensures
        count_weight(arrs, gs, order, true_count(a)) >= 1,
    decreases arrs.len(),
{
    lemma_weight_prefix(a, gs, order, order.len() as int);
    assert(order.take(order.len() as int) =~= order);
    if arrs.last() == a {
    } else {
        let k = choose|k: int| 0 <= k < arrs.len() && arrs[k] == a;
        assert(arrs.drop_last()[k] == a);
        lemma_count_weight_has(arrs.drop_last(), gs, order, a);
    }
}

/// A number of mines below `m` with placements has its entry in the list.
proof fn lemma_count_list_has(arrs: Seq<Seq<bool>>, gs: Seq<Seq<bool>>, order: Seq<usize>, m: int, c: nat)
    requires
        c < m,
        m <= usize::MAX,
        count_weight(arrs, gs, order, c) >= 1,
    ensures
        exists|e: int| 0 <= e < count_list(arrs, gs, order, m).len() && (#[trigger] count_list(arrs, gs, order, m)[e]).0
            == c && count_list(arrs, gs, order, m)[e].1 == count_weight(arrs, gs, order, c) as u64,
    decreases m,
{
    let prev = count_list(arrs, gs, order, m - 1);
    if c == m - 1 {
        let e = prev.len() as int;
        assert(count_list(arrs, gs, order, m)[e] == ((m - 1) as usize, count_weight(arrs, gs, order, c) as u64));
    } else {
        lemma_count_list_has(arrs, gs, order, m - 1, c);
        let e = choose|e: int| 0 <= e < prev.len() && (#[trigger] prev[e]).0 == c && prev[e].1 == count_weight(
            arrs,
            gs,
            order,
            c,
        ) as u64;
        assert(count_list(arrs, gs, order, m)[e] == prev[e]);
    }
}

proof fn lemma_count_list_len(arrs: Seq<Seq<bool>>, gs: Seq<Seq<bool>>, order: Seq<usize>, m: int)
    ensures
        count_list(arrs, gs, order, m).len() <= if m < 0 { 0 } else { m },
    decreases m,
{
    if m > 0 {
        lemma_count_list_len(arrs, gs, order, m - 1);
    }
}

/// Every index vector within the lengths that extends `prefix` from `e` on is one of the
/// vectors listed.
proof fn lemma_index_vectors_has(lens: Seq<nat>, k: int, e: int, prefix: Seq<usize>, v: Seq<usize>)
    requires
        0 <= k <= lens.len(),
        prefix.len() == k,
        v.len() == lens.len(),
        v.take(k) == prefix,
        forall|i: int| 0 <= i < lens.len() ==> #[trigger] v[i] < lens[i],
        k < lens.len() ==> 0 <= e <= v[k],
    ensures
        index_vectors(lens, k, e, prefix).contains(v),
    decreases lens.len() - k, (if 0 <= k < lens.len() { lens[k] - e } else { 0 }),
{
    if k == lens.len() {
        assert(v.take(k) =~= v);
        assert(index_vectors(lens, k, e, prefix)[0] == v);
    } else {
        let first = index_vectors(lens, k + 1, 0, prefix.push(e as usize));
        let rest = index_vectors(lens, k, e + 1, prefix);
        if e == v[k] {
            assert(v.take(k + 1) =~= prefix.push(e as usize));
            lemma_index_vectors_has(lens, k + 1, 0, prefix.push(e as usize), v);
            let i = choose|i: int| 0 <= i < first.len() && first[i] == v;
            assert((first + rest)[i] == v);
        } else {
            lemma_index_vectors_has(lens, k, e + 1, prefix, v);
            let i = choose|i: int| 0 <= i < rest.len() && rest[i] == v;
            assert((first + rest)[first.len() + i] == v);
        }
    }
}

/// The sum of a list of entries is at least the value of each entry a pick gives.
proof fn lemma_sum_values_has(lists: Seq<Seq<(usize, u64)>>, vs: Seq<Seq<usize>>, rem: nat, unc: nat, i: int)
    requires
        0 <= i < vs.len(),
        solution_entry(lists, vs[i], rem, unc) is Some,
    ensures
        sum_values(solution_list(lists, vs, rem, unc)) >= (solution_entry(lists, vs[i], rem, unc)->0).0,
    decreases vs.len(),
{
    let sl = solution_list(lists, vs, rem, unc);
    let sl0 = solution_list(lists, vs.drop_last(), rem, unc);
    if i == vs.len() - 1 {
        assert(sl == sl0 + seq![solution_entry(lists, vs[i], rem, unc)->0]);
        assert(sl.drop_last() =~= sl0);
        lemma_sum_values_nonneg(sl0);
    } else {
        assert(vs.drop_last()[i] == vs[i]);
        lemma_sum_values_has(lists, vs.drop_last(), rem, unc, i);
        match solution_entry(lists, vs.last(), rem, unc) {
            Some(x) => {
                assert(sl == sl0 + seq![x]);
                assert(sl.drop_last() =~= sl0);
            },
            None => {
                assert(sl =~= sl0);
            },
        }
    }
}

proof fn lemma_sum_values_nonneg(s: Seq<(nat, Seq<(usize, u64)>)>)
    ensures
        sum_values(s) >= 0,
{
}

/// The mines of a pick add up the entries' numbers.
proof fn lemma_sum_mines_psum(entries: Seq<(usize, u64)>, cv: Seq<usize>, k: int)
    requires
        0 <= k <= entries.len(),
        entries.len() == cv.len(),
        forall|j: int| 0 <= j < entries.len() ==> (#[trigger] entries[j]).0 == cv[j],
    ensures
        sum_mines(entries.take(k)) == psum(cv, k),
    decreases k,
{
    if k > 0 {
        lemma_sum_mines_psum(entries, cv, k - 1);
        assert(entries.take(k).drop_last() =~= entries.take(k - 1));
    }
}

/// A pick of entries each with placements has placements.
proof fn lemma_prod_counts_pos(entries: Seq<(usize, u64)>)
    requires
        forall|j: int| 0 <= j < entries.len() ==> (#[trigger] entries[j]).1 >= 1,
    ensures
        prod_counts(entries) >= 1,
    decreases entries.len(),
{
    if entries.len() > 0 {
        lemma_prod_counts_pos(entries.drop_last());
        let a = prod_counts(entries.drop_last());
        let b = entries.last().1 as nat;
        assert(a * b >= 1) by (nonlinear_arith)
            requires
                a >= 1,
                b >= 1,
        ;
    }
}


impl MineArrangements {
    /// The region each of the arrangement sets matches `p` with: an arrangement of it holding
    /// `p`'s canonical form there.
    spec fn matched(&self, p: Seq<bool>, k: int) -> Seq<bool> {
        choose|a: Seq<bool>| #[trigger] self.spec_subs()[k].spec_arrangements().contains(a) && matches_on(
            a,
            p,
            self.spec_groups(),
            self.spec_subs()[k].spec_groups(),
        )
    }

    /// The entry of region `k`'s list for the number of mines `p` has there.
    spec fn matched_entry(&self, p: Seq<bool>, k: int) -> int {
        choose|e: int| 0 <= e < self.spec_count_lists()[k].len() && (#[trigger] self.spec_count_lists()[k][e]).0
            == overlap_count(p, self.spec_subs()[k].spec_mask()) && self.spec_count_lists()[k][e].1 >= 1
    }

    /// Region `k` has, for the number of mines an admitted placement puts there, an entry with
    /// placements.
    proof fn lemma_region_entry(&self, p: Seq<bool>, k: int)
        requires
            self.wf(),
            self.exact(),
            self.counts_ok(),
            self.admits(p),
            0 <= k < self.spec_subs().len(),
        ensures
            0 <= self.matched_entry(p, k) < self.spec_count_lists()[k].len(),
            self.spec_count_lists()[k][self.matched_entry(p, k)].0 == overlap_count(p, self.spec_subs()[k].spec_mask()),
            self.spec_count_lists()[k][self.matched_entry(p, k)].1 >= 1,
    {
        self.lemma_wf();
        let n = self.spec_num_tiles();
        let gs = self.spec_groups();
        let sub = self.spec_subs()[k];
        let own = sub.spec_groups();
        let mask = sub.spec_mask();
        assert(has_match(sub, p, gs));
        let a = self.matched(p, k);
        assert(sub.spec_arrangements().contains(a) && matches_on(a, p, gs, own));
        let ka = choose|ka: int| 0 <= ka < sub.spec_arrangements().len() && sub.spec_arrangements()[ka] == a;
        assert(sub.wf_in(n, gs.len()));
        sub.lemma_wf_in(n, gs.len());
        assert(mask == region(gs, own));
        lemma_match_region_count(a, p, gs, own, own);
        assert(Seq::new(a.len(), |i: int| a[i] && mask[i]) =~= a);
        let c = true_count(a);
        assert(c == overlap_count(p, mask));
        let order = ones_of(own);
        lemma_count_weight_has(sub.spec_arrangements(), gs, order, a);
        let w = count_weight(sub.spec_arrangements(), gs, order, c);
        assert(counts_fit(sub.spec_arrangements(), gs, order, n));
        assert(w <= u64::MAX);
        lemma_overlap_le(mask, p);
        assert(Seq::new(mask.len(), |i: int| mask[i] && p[i]) =~= Seq::new(p.len(), |i: int| p[i] && mask[i]));
        crate::bits::lemma_true_count_le(mask);
        let m = true_count(mask) + 1int;
        lemma_count_list_has(sub.spec_arrangements(), gs, order, m, c);
        assert(self.spec_count_lists()[k] == count_list(sub.spec_arrangements(), gs, order, m));
        let e = choose|e: int| 0 <= e < count_list(sub.spec_arrangements(), gs, order, m).len() && (
        #[trigger] count_list(sub.spec_arrangements(), gs, order, m)[e]).0 == c && count_list(
            sub.spec_arrangements(),
            gs,
            order,
            m,
        )[e].1 == w as u64;
        assert(self.spec_count_lists()[k][e].0 == overlap_count(p, mask) && self.spec_count_lists()[k][e].1 >= 1);
    }

    /// A placement that the arrangements admit is one of the placements they count: their
    /// number of placements is positive.
    pub proof fn law_admitted_placement_counted(&self, p: Seq<bool>)
        requires
            self.wf(),
            self.exact(),
            self.counts_ok(),
            self.admits(p),
        ensures
            sum_values(self.spec_solution_counts()) > 0,
    {
        self.lemma_wf();
        self.lemma_unconstrained_rest();
        let n = self.spec_num_tiles();
        let subs = self.spec_subs();
        let lists = self.spec_count_lists();
        let kk = subs.len();
        let masks = Seq::new(kk, |k: int| subs[k].spec_mask());
        let cv = Seq::new(kk, |k: int| overlap_count(p, masks[k]) as usize);
        let v = Seq::new(kk, |k: int| self.matched_entry(p, k) as usize);
        let lens = list_lens(lists);
        assert forall|k: int| 0 <= k < kk implies #[trigger] v[k] < lens[k] && lists[k][v[k] as int].0 == cv[k]
            && lists[k][v[k] as int].1 >= 1 by {
            self.lemma_region_entry(p, k);
            subs[k].lemma_wf_in(n, self.spec_groups().len());
            lemma_overlap_le(masks[k], p);
            assert(Seq::new(masks[k].len(), |i: int| masks[k][i] && p[i]) =~= Seq::new(p.len(), |i: int| p[i] && masks[k][i]));
            crate::bits::lemma_true_count_le(masks[k]);
            lemma_count_list_len(
                subs[k].spec_arrangements(),
                self.spec_groups(),
                ones_of(subs[k].spec_groups()),
                true_count(subs[k].spec_mask()) + 1int,
            );
            assert(lists[k].len() <= n + 1);
            assert(v[k] as int == self.matched_entry(p, k));
        }
        assert(v.take(0) =~= Seq::<usize>::empty());
        lemma_index_vectors_has(lens, 0, 0, Seq::empty(), v);
        let vs = index_vectors(lens, 0, 0, Seq::empty());
        let i = choose|i: int| 0 <= i < vs.len() && vs[i] == v;
        let entries = picked(lists, v);
        assert forall|j: int| 0 <= j < entries.len() implies (#[trigger] entries[j]).0 == cv[j] by {}
        lemma_sum_mines_psum(entries, cv, kk as int);
        assert(entries.take(kk as int) =~= entries);
        assert forall|j: int| 0 <= j < kk implies (#[trigger] masks[j]).len() == n && cv[j] == overlap_count(p, masks[j]) by {
            assert(subset(subs[j].spec_mask(), self.spec_mask()));
            subs[j].lemma_wf_in(n, self.spec_groups().len());
            lemma_overlap_le(masks[j], p);
            assert(Seq::new(masks[j].len(), |i: int| masks[j][i] && p[i]) =~= Seq::new(p.len(), |i: int| p[i] && masks[j][i]));
            crate::bits::lemma_true_count_le(masks[j]);
        }
        lemma_union_sum(p, masks, cv, n, kk as int);
        assert(masks.take(kk as int) =~= masks);
        let u = union_seq(masks, n);
        let unc = self.spec_unconstrained();
        assert(unc == minus_all(self.spec_mask(), masks));
        assert forall|t: int| 0 <= t < n implies !(#[trigger] u[t] && unc[t]) by {
            if u[t] {
                let k = choose|k: int| 0 <= k < masks.len() && #[trigger] masks[k][t];
            }
        }
        lemma_overlap_or(p, u, unc);
        assert(Seq::new(p.len(), |t: int| p[t] && or_seq(u, unc)[t]) =~= p) by {
            assert forall|t: int| 0 <= t < p.len() && p[t] implies or_seq(u, unc)[t] by {
                assert(self.spec_mask()[t]);
                if !unc[t] {
                    let k = choose|k: int| 0 <= k < masks.len() && #[trigger] masks[k][t];
                }
            }
        }
        let rem = self.spec_remaining_mines();
        let uc = true_count(unc);
        lemma_overlap_le(unc, p);
        assert(Seq::new(unc.len(), |t: int| unc[t] && p[t]) =~= Seq::new(p.len(), |t: int| p[t] && unc[t]));
        let used = sum_mines(entries);
        assert(used + overlap_count(p, unc) == rem);
        lemma_prod_counts_pos(entries);
        lemma_binomial_pos(uc, (rem - used) as nat);
        let value = prod_counts(entries) * binomial(uc, (rem - used) as nat);
        assert(value >= 1) by (nonlinear_arith)
            requires
                prod_counts(entries) >= 1,
                binomial(uc, (rem - used) as nat) >= 1,
                value == prod_counts(entries) * binomial(uc, (rem - used) as nat),
        ;
        assert(solution_entry(lists, vs[i], rem, uc) == Some((value, entries)));
        lemma_sum_values_has(lists, vs, rem, uc, i);
    }
}

impl MineArrangements {
    /// Every region's placement counts fit the `u64` arithmetic used to compute them.
    pub open spec fn counts_ok(&self) -> bool {
        forall|k: int| 0 <= k < self.spec_subs().len() ==> counts_fit(
            (#[trigger] self.spec_subs()[k]).spec_arrangements(),
            self.spec_groups(),
            ones_of(self.spec_subs()[k].spec_groups()),
            self.spec_num_tiles(),
        )
    }

    /// For each region, its numbers of mines with their placements (`count_subsolutions`).
    pub open spec fn spec_count_lists(&self) -> Seq<Seq<(usize, u64)>> {
        Seq::new(
            self.spec_subs().len(),
            |k: int| count_list(
                self.spec_subs()[k].spec_arrangements(),
                self.spec_groups(),
                ones_of(self.spec_subs()[k].spec_groups()),
                true_count(self.spec_subs()[k].spec_mask()) + 1int,
            ),
        )
    }

    /// For each pick of one entry per region whose mines leave a possible number of mines for
    /// the tiles outside every region, the number of whole-board placements, with the pick; the
    /// picks in order, the first region changing slowest.
    pub open spec fn spec_solution_counts(&self) -> Seq<(nat, Seq<(usize, u64)>)> {
        solution_list(
            self.spec_count_lists(),
            index_vectors(list_lens(self.spec_count_lists()), 0, 0, Seq::empty()),
            self.spec_remaining_mines(),
            true_count(self.spec_unconstrained()),
        )
    }

    /// The sizes of the groups.
    pub(crate) fn group_sizes(&self) -> (r: Vec<usize>)
        requires
            self.wf(),
        ensures
            sizes_ok(self.groups_spec_vec(), r@, self.spec_num_tiles()),
    {
        proof {
            self.lemma_wf();
        }
        let groups = self.groups_ref();
        let mut out: Vec<usize> = Vec::new();
        let mut g: usize = 0;
        while g < groups.len()
            invariant
                g <= groups@.len(),
                out@.len() == g,
                sets_view(groups@) == self.spec_groups(),
                forall|x: int| 0 <= x < groups@.len() ==> (#[trigger] groups@[x]).wf(),
                forall|x: int| 0 <= x < g ==> #[trigger] out@[x] == true_count(groups@[x]@),
            decreases groups.len() - g,
        {
            let c = groups[g].count_ones();
            out.push(c);
            g = g + 1;
        }
        proof {
            assert(groups@ == self.groups_spec_vec());
            assert forall|x: int| 0 <= x < groups@.len() implies (#[trigger] groups@[x]).wf() && groups@[x]@.len() == self.spec_num_tiles()
                && out@[x] == true_count(groups@[x]@) by {
                assert(sets_view(groups@)[x] == groups@[x]@);
            }
        }
        out
    }

    /// For each pick of one entry per region (numbers of mines with their placements) whose
    /// mines leave a possible number of mines outside every region, the number of whole-board
    /// placements, with the pick.
    pub fn solution_counts(&self) -> (r: Vec<(BigNat, Vec<(usize, u64)>)>)
        requires
            self.wf(),
            self.counts_ok(),
        ensures
            solutions_view(r@) == self.spec_solution_counts(),
    {
        proof {
            self.lemma_wf();
        }
        let group_sizes = self.group_sizes();
        let groups = self.groups_ref();
        let unc = self.unconstrained().count_ones();
        let subs = self.subs_ref();
        let mut lists: Vec<Vec<(usize, u64)>> = Vec::new();
        let mut k: usize = 0;
        while k < subs.len()
            invariant
                self.wf(),
                self.counts_ok(),
                subs@ == self.spec_subs(),
                sets_view(groups@) == self.spec_groups(),
                groups@ == self.groups_spec_vec(),
                sizes_ok(groups@, group_sizes@, self.spec_num_tiles()),
                k <= subs@.len(),
                lists@.len() == k,
                forall|j: int| 0 <= j < k ==> (#[trigger] lists@[j])@ == self.spec_count_lists()[j],
            decreases subs.len() - k,
        {
            proof {
                self.lemma_wf();
                assert(subs@[k as int].wf_in(self.spec_num_tiles(), self.spec_groups().len()));
                subs@[k as int].lemma_wf_in(self.spec_num_tiles(), self.spec_groups().len());
                assert(counts_fit(subs@[k as int].spec_arrangements(), self.spec_groups(), ones_of(subs@[k as int].spec_groups()), self.spec_num_tiles()));
            }
            let list = subs[k].count_subsolutions(groups, &group_sizes);
            lists.push(list);
            k = k + 1;
        }
        proof {
            assert(vecs_view(lists@) =~= self.spec_count_lists());
        }
        let mut out: Vec<(BigNat, Vec<(usize, u64)>)> = Vec::new();
        let mut chosen: Vec<(usize, u64)> = Vec::new();
        let one = BigNat::from_u64(1);
        proof {
            assert(chosen@ =~= picked(vecs_view(lists@), Seq::empty()));
            assert(solutions_view(out@) =~= Seq::empty());
        }
        collect_solutions(&lists, &mut chosen, Some(0), &one, self.remaining_mines(), unc, &mut out, Ghost(Seq::empty()));
        out
    }

    /// The number of placements of the remaining mines on the undecided tiles that every
    /// region allows: the sum of `solution_counts`.
    pub fn total_solutions(&self) -> (r: BigNat)
        requires
            self.wf(),
            self.counts_ok(),
        ensures
            r@ == sum_values(self.spec_solution_counts()),
    {
        let counts = self.solution_counts();
        let mut total = BigNat::zero();
        let mut i: usize = 0;
        while i < counts.len()
            invariant
                i <= counts@.len(),
                total@ == sum_values(solutions_view(counts@).take(i as int)),
            decreases counts.len() - i,
        {
            total = total.add(&counts[i].0);
            proof {
                assert(solutions_view(counts@).take(i + 1).drop_last() =~= solutions_view(counts@).take(i as int));
            }
            i = i + 1;
        }
        assert(solutions_view(counts@).take(counts@.len() as int) =~= solutions_view(counts@));
        total
    }
}


// ---------------------------------------------------------------------------------------------
// Safe placements of every tile

/// The per-region entries for the safe counts: the `i`-th number of mines with its placements,
/// beside the `i`-th row of safe placements per tile (pairs made by position, as far as both
/// lists go).
pub open spec fn zip_info(cl: Seq<(usize, u64)>, tl: Seq<(usize, Seq<u64>)>) -> Seq<(usize, u64, Seq<u64>)> {
    Seq::new(
        if cl.len() <= tl.len() { cl.len() } else { tl.len() },
        |i: int| (cl[i].0, cl[i].1, tl[i].1),
    )
}

/// The numbers of mines and placements of the entries that `v` picks.
pub open spec fn picked_counts(info: Seq<Seq<(usize, u64, Seq<u64>)>>, v: Seq<usize>) -> Seq<(usize, u64)> {
    Seq::new(v.len(), |k: int| (info[k][v[k] as int].0, info[k][v[k] as int].1))
}

/// The whole-board placements of a pick, or `None` when its mines leave an impossible number
/// of mines outside the regions.
pub open spec fn pick_total(info: Seq<Seq<(usize, u64, Seq<u64>)>>, v: Seq<usize>, rem: nat, unc: nat) -> Option<nat> {
    let entries = picked_counts(info, v);
    let used = sum_mines(entries);
    if used <= rem && rem - used <= unc {
        Some(binomial(unc, (rem - used) as nat) * prod_counts(entries))
    } else {
        None
    }
}

/// What regions `0..m` of a pick add to tile `t`: for each region whose row has safe placements
/// for the tile, the pick's placements times the row's entry over the region's placements.
pub open spec fn pick_tile_upto(info: Seq<Seq<(usize, u64, Seq<u64>)>>, v: Seq<usize>, total: nat, t: int, m: int) -> nat
    decreases m,
{
    if m <= 0 {
        0
    } else {
        let e = info[m - 1][v[m - 1] as int];
        pick_tile_upto(info, v, total, t, m - 1) + if e.2[t] > 0 { (total * (e.2[t] as nat) / (e.1 as nat)) as nat } else { 0nat }
    }
}

/// What a pick adds to tile `t`.
pub open spec fn pick_tile(info: Seq<Seq<(usize, u64, Seq<u64>)>>, v: Seq<usize>, rem: nat, unc: nat, t: int) -> nat {
    match pick_total(info, v, rem, unc) {
        Some(total) => pick_tile_upto(info, v, total, t, v.len() as int),
        None => 0,
    }
}

/// What a pick adds to the tiles outside every region: its placements times the share of the
/// `unc` tiles left free.
pub open spec fn pick_free(info: Seq<Seq<(usize, u64, Seq<u64>)>>, v: Seq<usize>, rem: nat, unc: nat) -> nat {
    match pick_total(info, v, rem, unc) {
        Some(total) => if unc > 0 {
            total * (unc - (rem - sum_mines(picked_counts(info, v)))) as nat / unc
        } else {
            0
        },
        None => 0,
    }
}

pub open spec fn sum_pick_tile(info: Seq<Seq<(usize, u64, Seq<u64>)>>, vs: Seq<Seq<usize>>, rem: nat, unc: nat, t: int) -> nat
    decreases vs.len(),
{
    if vs.len() == 0 {
        0
    } else {
        sum_pick_tile(info, vs.drop_last(), rem, unc, t) + pick_tile(info, vs.last(), rem, unc, t)
    }
}

pub open spec fn sum_pick_free(info: Seq<Seq<(usize, u64, Seq<u64>)>>, vs: Seq<Seq<usize>>, rem: nat, unc: nat) -> nat
    decreases vs.len(),
{
    if vs.len() == 0 {
        0
    } else {
        sum_pick_free(info, vs.drop_last(), rem, unc) + pick_free(info, vs.last(), rem, unc)
    }
}

proof fn lemma_sum_pick_append(info: Seq<Seq<(usize, u64, Seq<u64>)>>, a: Seq<Seq<usize>>, b: Seq<Seq<usize>>, rem: nat, unc: nat)
    ensures
        sum_pick_free(info, a + b, rem, unc) == sum_pick_free(info, a, rem, unc) + sum_pick_free(info, b, rem, unc),
        forall|t: int| #[trigger] sum_pick_tile(info, a + b, rem, unc, t) == sum_pick_tile(info, a, rem, unc, t)
            + sum_pick_tile(info, b, rem, unc, t),
    decreases b.len(),
{
    if b.len() == 0 {
        assert(a + b =~= a);
    } else {
        assert((a + b).drop_last() =~= a + b.drop_last());
        assert((a + b).last() == b.last());
        lemma_sum_pick_append(info, a, b.drop_last(), rem, unc);
        assert forall|t: int| #[trigger] sum_pick_tile(info, a + b, rem, unc, t) == sum_pick_tile(info, a, rem, unc, t)
            + sum_pick_tile(info, b, rem, unc, t) by {
            assert(sum_pick_tile(info, a + b.drop_last(), rem, unc, t) == sum_pick_tile(info, a, rem, unc, t)
                + sum_pick_tile(info, b.drop_last(), rem, unc, t));
        }
    }
}

/// The views of the per-region entries.
pub open spec fn info_view(info: Seq<Vec<(usize, u64, Vec<u64>)>>) -> Seq<Seq<(usize, u64, Seq<u64>)>> {
    Seq::new(info.len(), |k: int| Seq::new(info[k]@.len(), |i: int| (info[k]@[i].0, info[k]@[i].1, info[k]@[i].2@)))
}

/// Adds, for every pick extending `prefix`, what it adds to each tile to `out` and what it adds
/// to the tiles outside every region to `free`; `used` and `prod` are the mines and the product
/// of the placements of the entries that `prefix` picks.
fn accumulate_safe(
    info: &Vec<Vec<(usize, u64, Vec<u64>)>>,
    prefix: &mut Vec<usize>,
    used: Option<usize>,
    prod: &BigNat,
    rem: usize,
    unc: usize,
    out: &mut Vec<BigNat>,
    free: &mut BigNat,
    Ghost(n): Ghost<nat>,
)
    requires
        old(prefix)@.len() <= info@.len(),
        forall|i: int| 0 <= i < old(prefix)@.len() ==> #[trigger] old(prefix)@[i] < info@[i]@.len(),
        forall|k: int, i: int| 0 <= k < info@.len() && 0 <= i < info@[k]@.len() ==> (#[trigger] info@[k]@[i]).2@.len() == n
            && info@[k]@[i].1 > 0,
        old(out)@.len() == n,
        match used {
            Some(u) => u == sum_mines(picked_counts(info_view(info@), old(prefix)@)),
            None => sum_mines(picked_counts(info_view(info@), old(prefix)@)) > usize::MAX,
        },
        prod@ == prod_counts(picked_counts(info_view(info@), old(prefix)@)),
    ensures
        final(prefix)@ == old(prefix)@,
        final(out)@.len() == n,
        forall|t: int| 0 <= t < n ==> #[trigger] final(out)@[t]@ == old(out)@[t]@ + sum_pick_tile(
            info_view(info@),
            index_vectors(list_lens(info_view(info@)), old(prefix)@.len() as int, 0, old(prefix)@),
            rem as nat,
            unc as nat,
            t,
        ),
        final(free)@ == old(free)@ + sum_pick_free(
            info_view(info@),
            index_vectors(list_lens(info_view(info@)), old(prefix)@.len() as int, 0, old(prefix)@),
            rem as nat,
            unc as nat,
        ),
    decreases info@.len() - old(prefix)@.len(),
{
    let ghost iv = info_view(info@);
    let ghost lens = list_lens(iv);
    let ghost p0 = prefix@;
    let ghost out0 = out@;
    let ghost free0 = free@;
    let k = prefix.len();
    if k == info.len() {
        proof {
            let one = index_vectors(lens, k as int, 0, p0);
            assert(one == seq![p0]);
            assert(one.drop_last() =~= Seq::<Seq<usize>>::empty());
            assert(one.last() == p0);
        }
        let valid = match used {
            Some(u) => u <= rem && rem - u <= unc,
            None => false,
        };
        if valid {
            let u = used.unwrap();
            let total = n_choose_k_natural(unc as u64, (rem - u) as u64).mul(prod);
            let ghost tv = total@;
            proof {
                assert(pick_total(iv, p0, rem as nat, unc as nat) == Some(tv));
            }
            let mut j: usize = 0;
            while j < k
                invariant
                    k == info@.len(),
                    prefix@ == p0,
                    p0.len() == k,
                    iv == info_view(info@),
                    forall|i: int| 0 <= i < p0.len() ==> #[trigger] p0[i] < info@[i]@.len(),
                    forall|k: int, i: int| 0 <= k < info@.len() && 0 <= i < info@[k]@.len() ==> (#[trigger] info@[k]@[i]).2@.len() == n
                        && info@[k]@[i].1 > 0,
                    total@ == tv,
                    j <= k,
                    out@.len() == n,
                    forall|t: int| 0 <= t < n ==> #[trigger] out@[t]@ == out0[t]@ + pick_tile_upto(iv, p0, tv, t, j as int),
                decreases k - j,
            {
                let entry = &info[j][prefix[j]];
                let cnt = BigNat::from_u64(entry.1);
                let row = &entry.2;
                let ghost before = out@;
                proof {
                    assert(iv[j as int][p0[j as int] as int] == (entry.0, entry.1, row@));
                }
                let mut t: usize = 0;
                while t < row.len()
                    invariant
                        row@.len() == n,
                        out@.len() == n,
                        entry.1 > 0,
                        cnt@ == entry.1,
                        total@ == tv,
                        iv[j as int][p0[j as int] as int] == (entry.0, entry.1, row@),
                        t <= n,
                        forall|x: int| 0 <= x < n ==> #[trigger] out@[x]@ == before[x]@ + if x < t && row@[x] > 0 {
                            (tv * (row@[x] as nat) / (entry.1 as nat)) as nat
                        } else {
                            0nat
                        },
                    decreases row.len() - t,
                {
                    if row[t] > 0 {
                        let add = total.mul(&BigNat::from_u64(row[t])).div(&cnt);
                        let nv = out[t].add(&add);
                        out.set(t, nv);
                    }
                    t = t + 1;
                }
                j = j + 1;
            }
            if unc > 0 {
                let share = total.mul(&BigNat::from_u64((unc - (rem - u)) as u64)).div(&BigNat::from_u64(unc as u64));
                *free = free.add(&share);
            }
        }
        proof {
            let one = index_vectors(lens, k as int, 0, p0);
            assert(sum_pick_free(iv, one.drop_last(), rem as nat, unc as nat) == 0);
            assert forall|t: int| 0 <= t < n implies #[trigger] out@[t]@ == out0[t]@ + sum_pick_tile(iv, one, rem as nat, unc as nat, t) by {
                assert(sum_pick_tile(iv, one.drop_last(), rem as nat, unc as nat, t) == 0);
            }
        }
        return;
    }
    let mut e: usize = 0;
    while e < info[k].len()
        invariant
            k < info@.len(),
            iv == info_view(info@),
            lens == list_lens(iv),
            prefix@ == p0,
            p0 == old(prefix)@,
            p0.len() == k,
            forall|i: int| 0 <= i < p0.len() ==> #[trigger] p0[i] < info@[i]@.len(),
            forall|k: int, i: int| 0 <= k < info@.len() && 0 <= i < info@[k]@.len() ==> (#[trigger] info@[k]@[i]).2@.len() == n
                && info@[k]@[i].1 > 0,
            match used {
                Some(u) => u == sum_mines(picked_counts(iv, p0)),
                None => sum_mines(picked_counts(iv, p0)) > usize::MAX,
            },
            prod@ == prod_counts(picked_counts(iv, p0)),
            e <= info@[k as int]@.len(),
            out@.len() == n,
            forall|t: int| 0 <= t < n ==> #[trigger] out@[t]@ + sum_pick_tile(iv, index_vectors(lens, k as int, e as int, p0), rem as nat, unc as nat, t)
                == out0[t]@ + sum_pick_tile(iv, index_vectors(lens, k as int, 0, p0), rem as nat, unc as nat, t),
            free@ + sum_pick_free(iv, index_vectors(lens, k as int, e as int, p0), rem as nat, unc as nat)
                == free0 + sum_pick_free(iv, index_vectors(lens, k as int, 0, p0), rem as nat, unc as nat),
        decreases info@[k as int]@.len() - e,
    {
        let c = info[k][e].0;
        let cnt = info[k][e].1;
        let next_used = match used {
            Some(u) => u.checked_add(c),
            None => None,
        };
        let next_prod = prod.mul(&BigNat::from_u64(cnt));
        prefix.push(e);
        let ghost p1 = prefix@;
        proof {
            assert(p1 == p0.push(e as usize));
            let a = picked_counts(iv, p1);
            assert(a.drop_last() =~= picked_counts(iv, p0));
            assert(a.last() == (c, cnt));
            assert forall|i: int| 0 <= i < p1.len() implies #[trigger] p1[i] < info@[i]@.len() by {
                if i < k {
                    assert(p1[i] == p0[i]);
                }
            }
        }
        accumulate_safe(info, prefix, next_used, &next_prod, rem, unc, out, free, Ghost(n));
        prefix.pop();
        proof {
            assert(prefix@ =~= p0);
            lemma_index_vectors_step(lens, k as int, e as int, p0);
            lemma_sum_pick_append(
                iv,
                index_vectors(lens, k + 1, 0, p1),
                index_vectors(lens, k as int, e + 1, p0),
                rem as nat,
                unc as nat,
            );
        }
        e = e + 1;
    }
    proof {
        assert(index_vectors(lens, k as int, e as int, p0) =~= Seq::<Seq<usize>>::empty());
    }
}


impl MineArrangements {
    /// For each region, its numbers of mines with their placements beside its rows of safe
    /// placements per tile (`zip_info` of `count_subsolutions` and `count_tile_safes`).
    pub open spec fn spec_info(&self) -> Seq<Seq<(usize, u64, Seq<u64>)>> {
        Seq::new(
            self.spec_subs().len(),
            |k: int| zip_info(
                self.spec_count_lists()[k],
                tile_list(
                    self.spec_subs()[k].spec_arrangements(),
                    self.spec_groups(),
                    ones_of(self.spec_subs()[k].spec_groups()),
                    self.spec_num_tiles(),
                    self.spec_num_tiles() + 1int,
                ),
            ),
        )
    }

    /// For each tile, the number of whole-board placements in which it is safe, summed over the
    /// picks of one entry per region: a tile outside every region gets the picks' placements
    /// times the share of such tiles left free, any other tile what each region's row adds.
    pub open spec fn spec_tile_safe_solutions(&self) -> Seq<nat> {
        let info = self.spec_info();
        let vs = index_vectors(list_lens(info), 0, 0, Seq::empty());
        let rem = self.spec_remaining_mines();
        let unc = true_count(self.spec_unconstrained());
        Seq::new(
            self.spec_num_tiles(),
            |t: int|
                if self.spec_unconstrained()[t] {
                    sum_pick_free(info, vs, rem, unc)
                } else {
                    sum_pick_tile(info, vs, rem, unc, t)
                },
        )
    }

    /// For each tile, the number of placements of the remaining mines in which it is safe.
    pub fn tile_safe_solutions(&self) -> (r: Vec<BigNat>)
        requires
            self.wf(),
            self.counts_ok(),
        ensures
            r@.len() == self.spec_num_tiles(),
            forall|t: int| 0 <= t < r@.len() ==> #[trigger] r@[t]@ == self.spec_tile_safe_solutions()[t],
    {
        proof {
            self.lemma_wf();
        }
        let n = self.num_tiles();
        let group_sizes = self.group_sizes();
        let groups = self.groups_ref();
        let unconstrained = self.unconstrained();
        let unc = unconstrained.count_ones();
        let subs = self.subs_ref();
        let mut info: Vec<Vec<(usize, u64, Vec<u64>)>> = Vec::new();
        let mut k: usize = 0;
        while k < subs.len()
            invariant
                self.wf(),
                self.counts_ok(),
                n == self.spec_num_tiles(),
                subs@ == self.spec_subs(),
                sets_view(groups@) == self.spec_groups(),
                groups@ == self.groups_spec_vec(),
                sizes_ok(groups@, group_sizes@, self.spec_num_tiles()),
                k <= subs@.len(),
                info@.len() == k,
                forall|j: int| 0 <= j < k ==> #[trigger] info_view(info@)[j] == self.spec_info()[j],
                forall|j: int, i: int| 0 <= j < k && 0 <= i < info@[j]@.len() ==> (#[trigger] info@[j]@[i]).2@.len() == n
                    && info@[j]@[i].1 > 0,
            decreases subs.len() - k,
        {
            proof {
                self.lemma_wf();
                subs@[k as int].lemma_wf_in(self.spec_num_tiles(), self.spec_groups().len());
            }
            let cl = subs[k].count_subsolutions(groups, &group_sizes);
            let mut tl = subs[k].count_tile_safes(groups, &group_sizes, n);
            let len = if cl.len() <= tl.len() {
                cl.len()
            } else {
                tl.len()
            };
            let ghost tl0 = tl@;
            let mut zipped: Vec<(usize, u64, Vec<u64>)> = Vec::new();
            let mut i: usize = 0;
            while i < len
                invariant
                    len <= cl@.len(),
                    len <= tl0.len(),
                    tl@.len() == tl0.len(),
                    forall|x: int| i <= x < tl0.len() ==> #[trigger] tl@[x] == tl0[x],
                    forall|x: int| 0 <= x < tl0.len() ==> (#[trigger] tl0[x]).1@.len() == n,
                    forall|x: int| 0 <= x < cl@.len() ==> (#[trigger] cl@[x]).1 > 0,
                    i <= len,
                    zipped@.len() == i,
                    forall|x: int| 0 <= x < i ==> #[trigger] zipped@[x].0 == cl@[x].0 && zipped@[x].1 == cl@[x].1
                        && zipped@[x].2@ == tl0[x].1@,
                decreases len - i,
            {
                let mut slot: (usize, Vec<u64>) = (0, Vec::new());
                tl.set_and_swap(i, &mut slot);
                proof {
                    assert(slot == tl0[i as int]);
                }
                zipped.push((cl[i].0, cl[i].1, slot.1));
                i = i + 1;
            }
            proof {
                let z = Seq::new(zipped@.len(), |x: int| (zipped@[x].0, zipped@[x].1, zipped@[x].2@));
                assert(rows_view(tl0) == tile_list(
                    subs@[k as int].spec_arrangements(),
                    self.spec_groups(),
                    ones_of(subs@[k as int].spec_groups()),
                    self.spec_num_tiles(),
                    self.spec_num_tiles() + 1int,
                ));
                assert(z =~= zip_info(self.spec_count_lists()[k as int], rows_view(tl0))) by {
                    assert forall|x: int| 0 <= x < z.len() implies z[x] == zip_info(self.spec_count_lists()[k as int], rows_view(tl0))[x] by {
                        assert(rows_view(tl0)[x] == (tl0[x].0, tl0[x].1@));
                    }
                }
            }
            let ghost info0 = info@;
            let ghost zv = zipped@;
            info.push(zipped);
            proof {
                assert(info@ == info0.push(zipped));
                assert forall|j: int| 0 <= j < k + 1 implies #[trigger] info_view(info@)[j] == self.spec_info()[j] by {
                    if j == k {
                        assert(cl@ == self.spec_count_lists()[k as int]);
                        assert(info_view(info@)[j] =~= self.spec_info()[j]) by {
                            assert forall|x: int| 0 <= x < info_view(info@)[j].len() implies info_view(info@)[j][x] == self.spec_info()[j][x] by {
                                assert(info@[j]@[x] == zv[x]);
                            }
                        }
                    } else {
                        assert(info@[j] == info0[j]);
                        assert(info_view(info@)[j] == info_view(info0)[j]);
                    }
                }
                assert forall|j: int, i: int| 0 <= j < k + 1 && 0 <= i < info@[j]@.len() implies (#[trigger] info@[j]@[i]).2@.len() == n
                    && info@[j]@[i].1 > 0 by {
                    if j == k {
                        assert(info@[j]@[i] == zv[i]);
                        assert(zv[i].0 == cl@[i].0);
                        assert(zv[i].2@ == tl0[i].1@);
                        assert(tl0[i].1@.len() == n);
                        assert(cl@[i].1 > 0);
                    } else {
                        assert(info@[j] == info0[j]);
                    }
                }
            }
            k = k + 1;
        }
        proof {
            assert(info_view(info@) =~= self.spec_info());
        }
        let mut out: Vec<BigNat> = Vec::new();
        let mut t: usize = 0;
        while t < n
            invariant
                t <= n,
                out@.len() == t,
                forall|x: int| 0 <= x < t ==> #[trigger] out@[x]@ == 0,
            decreases n - t,
        {
            out.push(BigNat::zero());
            t = t + 1;
        }
        let mut free = BigNat::zero();
        let mut prefix: Vec<usize> = Vec::new();
        let one = BigNat::from_u64(1);
        proof {
            assert(picked_counts(info_view(info@), prefix@) =~= Seq::empty());
        }
        accumulate_safe(&info, &mut prefix, Some(0), &one, self.remaining_mines(), unc, &mut out, &mut free, Ghost(n as nat));
        let ghost acc = out@;
        let tiles = unconstrained.iter_ones();
        proof {
            crate::bitset::lemma_storage_covers(&unconstrained);
            lemma_ones_of(unconstrained@);
        }
        let mut q: usize = 0;
        while q < tiles.len()
            invariant
                out@.len() == n,
                unconstrained@.len() == n,
                tiles@ == ones_of(unconstrained@),
                forall|m: int| 0 <= m < tiles@.len() ==> #[trigger] tiles@[m] < n && unconstrained@[tiles@[m] as int],
                forall|i: int| 0 <= i < n && #[trigger] unconstrained@[i] ==> tiles@.contains(i as usize),
                q <= tiles@.len(),
                forall|x: int| 0 <= x < n ==> #[trigger] out@[x]@ == if tiles@.take(q as int).contains(x as usize) {
                    free@
                } else {
                    acc[x]@
                },
            decreases tiles.len() - q,
        {
            let tile = tiles[q];
            let ghost before = out@;
            out.set(tile, free.clone());
            proof {
                assert(tiles@.take(q + 1) =~= tiles@.take(q as int).push(tile));
                assert forall|x: int| 0 <= x < n implies #[trigger] out@[x]@ == if tiles@.take(q + 1).contains(x as usize) {
                    free@
                } else {
                    acc[x]@
                } by {
                    if x != tile {
                        if tiles@.take(q + 1).contains(x as usize) {
                            let m = choose|m: int| 0 <= m < q + 1 && #[trigger] tiles@.take(q + 1)[m] == x as usize;
                            assert(tiles@.take(q as int)[m] == x as usize);
                        }
                        if tiles@.take(q as int).contains(x as usize) {
                            let m = choose|m: int| 0 <= m < q && #[trigger] tiles@.take(q as int)[m] == x as usize;
                            assert(tiles@.take(q + 1)[m] == x as usize);
                        }
                    } else {
                        assert(tiles@.take(q + 1)[q as int] == tile);
                    }
                }
            }
            q = q + 1;
        }
        proof {
            assert(tiles@.take(tiles@.len() as int) =~= tiles@);
            assert forall|t: int| 0 <= t < out@.len() implies #[trigger] out@[t]@ == self.spec_tile_safe_solutions()[t] by {
                if unconstrained@[t] {
                    assert(tiles@.contains(t as usize));
                } else {
                    if tiles@.contains(t as usize) {
                        let m = choose|m: int| 0 <= m < tiles@.len() && tiles@[m] == t as usize;
                    }
                }
            }
        }
        out
    }
}

// ---------------------------------------------------------------------------------------------
// Checking that the counts fit

/// The placements of `arrangement` on the groups of `group_set`, in any size.
fn weight_natural(
    arrangement: &BitSet,
    group_set: &BitSet,
    groups: &Vec<BitSet>,
    group_sizes: &Vec<usize>,
    Ghost(n): Ghost<nat>,
) -> (r: BigNat)
    requires
        arrangement.wf(),
        group_set.wf(),
        len_fits(group_set@.len()),
        arrangement@.len() == n,
        group_set@.len() == n,
        sizes_ok(groups@, group_sizes@, n),
        forall|g: int| 0 <= g < n && #[trigger] group_set@[g] ==> g < groups@.len(),
    ensures
        r@ == weight(arrangement@, sets_view(groups@), ones_of(group_set@)),
{
    let ghost gs = sets_view(groups@);
    let order = group_set.iter_ones();
    proof {
        lemma_ones_of(group_set@);
    }
    let mut prod = BigNat::from_u64(1);
    let mut j: usize = 0;
    while j < order.len()
        invariant
            order@ == ones_of(group_set@),
            gs == sets_view(groups@),
            forall|m: int| 0 <= m < order@.len() ==> #[trigger] order@[m] < n && group_set@[order@[m] as int],
            forall|g: int| 0 <= g < n && #[trigger] group_set@[g] ==> g < groups@.len(),
            sizes_ok(groups@, group_sizes@, n),
            arrangement.wf(),
            arrangement@.len() == n,
            j <= order@.len(),
            prod@ == weight(arrangement@, gs, order@.take(j as int)),
        decreases order.len() - j,
    {
        let g = order[j];
        proof {
            assert(gs[g as int] == groups@[g as int]@);
        }
        let mines = groups[g].count_overlap_ones(arrangement);
        let size = group_sizes[g];
        proof {
            lemma_overlap_le(gs[g as int], arrangement@);
        }
        let b = n_choose_k_natural(size as u64, mines as u64);
        proof {
            assert(order@.take(j + 1).drop_last() =~= order@.take(j as int));
        }
        prod = prod.mul(&b);
        j = j + 1;
    }
    proof {
        assert(order@.take(order@.len() as int) =~= order@);
    }
    prod
}

/// Whether the counts of a region fit the `u64` arithmetic used to compute them: exactly
/// `counts_fit`.
fn counts_fit_check(
    arrs: &Vec<BitSet>,
    group_set: &BitSet,
    groups: &Vec<BitSet>,
    group_sizes: &Vec<usize>,
    n: usize,
) -> (r: bool)
    requires
        group_set.wf(),
        len_fits(n as nat),
        group_set@.len() == n,
        forall|k: int| 0 <= k < arrs@.len() ==> (#[trigger] arrs@[k]).wf() && arrs@[k]@.len() == n,
        sizes_ok(groups@, group_sizes@, n as nat),
        forall|g: int| 0 <= g < n && #[trigger] group_set@[g] ==> g < groups@.len(),
    ensures
        r == counts_fit(sets_view(arrs@), sets_view(groups@), ones_of(group_set@), n as nat),
{
    let ghost gs = sets_view(groups@);
    let ghost av = sets_view(arrs@);
    let order = group_set.iter_ones();
    proof {
        lemma_ones_of(group_set@);
    }
    let max = BigNat::from_u64(u64::MAX);
    let mut j: usize = 0;
    while j < order.len()
        invariant
            order@ == ones_of(group_set@),
            gs == sets_view(groups@),
            forall|m: int| 0 <= m < order@.len() ==> #[trigger] order@[m] < n && group_set@[order@[m] as int],
            forall|g: int| 0 <= g < n && #[trigger] group_set@[g] ==> g < groups@.len(),
            sizes_ok(groups@, group_sizes@, n as nat),
            max@ == u64::MAX,
            j <= order@.len(),
            forall|m: int| 0 <= m < j ==> factorial(true_count(#[trigger] gs[order@[m] as int])) <= u64::MAX,
        decreases order.len() - j,
    {
        let g = order[j];
        proof {
            assert(gs[g as int] == groups@[g as int]@);
        }
        let f = BigNat::factorial(group_sizes[g] as u64);
        if !f.le(&max) {
            return false;
        }
        j = j + 1;
    }
    let n1 = BigNat::from_u64(n as u64 + 1);
    let mut buckets: Vec<BigNat> = Vec::new();
    let mut c: usize = 0;
    while c <= n
        invariant
            c <= n + 1,
            len_fits(n as nat),
            buckets@.len() == c,
            forall|m: int| 0 <= m < c ==> (#[trigger] buckets@[m])@ == 0,
        decreases n + 1 - c,
    {
        buckets.push(BigNat::zero());
        c = c + 1;
    }
    let mut a: usize = 0;
    while a < arrs.len()
        invariant
            order@ == ones_of(group_set@),
            gs == sets_view(groups@),
            av == sets_view(arrs@),
            forall|k: int| 0 <= k < arrs@.len() ==> (#[trigger] arrs@[k]).wf() && arrs@[k]@.len() == n,
            forall|g: int| 0 <= g < n && #[trigger] group_set@[g] ==> g < groups@.len(),
            sizes_ok(groups@, group_sizes@, n as nat),
            group_set.wf(),
            len_fits(n as nat),
            group_set@.len() == n,
            max@ == u64::MAX,
            n1@ == n + 1,
            forall|m: int| 0 <= m < order@.len() ==> factorial(true_count(#[trigger] gs[order@[m] as int])) <= u64::MAX,
            a <= arrs@.len(),
            forall|k: int| 0 <= k < a ==> weight(#[trigger] av[k], gs, order@) * (n + 1) <= u64::MAX,
            buckets@.len() == n + 1,
            forall|m: int| 0 <= m <= n ==> (#[trigger] buckets@[m])@ == count_weight(av.take(a as int), gs, order@, m as nat),
        decreases arrs.len() - a,
    {
        proof {
            assert(av[a as int] == arrs@[a as int]@);
        }
        let w = weight_natural(&arrs[a], group_set, groups, group_sizes, Ghost(n as nat));
        if !w.mul(&n1).le(&max) {
            return false;
        }
        let m = arrs[a].count_ones();
        proof {
            crate::bits::lemma_true_count_le(arrs@[a as int]@);
        }
        let updated = buckets[m].add(&w);
        buckets.set(m, updated);
        proof {
            assert(av.take(a + 1).drop_last() =~= av.take(a as int));
            assert(av.take(a + 1).last() == av[a as int]);
        }
        a = a + 1;
    }
    proof {
        assert(av.take(arrs@.len() as int) =~= av);
    }
    let mut m: usize = 0;
    while m <= n
        invariant
            m <= n + 1,
            len_fits(n as nat),
            order@ == ones_of(group_set@),
            gs == sets_view(groups@),
            av == sets_view(arrs@),
            buckets@.len() == n + 1,
            max@ == u64::MAX,
            forall|q: int| 0 <= q <= n ==> (#[trigger] buckets@[q])@ == count_weight(av, gs, order@, q as nat),
            forall|q: int| 0 <= q < m ==> (#[trigger] buckets@[q])@ <= u64::MAX,
        decreases n + 1 - m,
    {
        if !buckets[m].le(&max) {
            proof {
                assert(count_weight(av, gs, order@, m as nat) > u64::MAX);
            }
            return false;
        }
        m = m + 1;
    }
    proof {
        assert forall|c: nat| #[trigger] count_weight(av, gs, order@, c) <= u64::MAX by {
            if c > n {
                assert forall|k: int| 0 <= k < av.len() implies true_count(#[trigger] av[k]) != c by {
                    crate::bits::lemma_true_count_le(av[k]);
                }
                lemma_count_weight_zero(av, gs, order@, c);
            } else {
                assert(buckets@[c as int]@ <= u64::MAX);
            }
        }
    }
    true
}

impl MineArrangements {
    /// Whether every region's counts fit the `u64` arithmetic used to compute them: exactly
    /// `counts_ok`.
    pub fn check_counts(&self) -> (r: bool)
        requires
            self.wf(),
        ensures
            r == self.counts_ok(),
    {
        proof {
            self.lemma_wf();
        }
        let n = self.num_tiles();
        let group_sizes = self.group_sizes();
        let groups = self.groups_ref();
        let subs = self.subs_ref();
        let mut k: usize = 0;
        while k < subs.len()
            invariant
                self.wf(),
                n == self.spec_num_tiles(),
                subs@ == self.spec_subs(),
                sets_view(groups@) == self.spec_groups(),
                groups@ == self.groups_spec_vec(),
                sizes_ok(groups@, group_sizes@, n as nat),
                k <= subs@.len(),
                forall|q: int| 0 <= q < k ==> counts_fit(
                    (#[trigger] self.spec_subs()[q]).spec_arrangements(),
                    self.spec_groups(),
                    ones_of(self.spec_subs()[q].spec_groups()),
                    self.spec_num_tiles(),
                ),
            decreases subs.len() - k,
        {
            proof {
                self.lemma_wf();
                subs@[k as int].lemma_wf_in(n as nat, self.spec_groups().len());
            }
            let sub = &subs[k];
            let arrs = sub.arrangements_ref();
            let gset = sub.groups_ref();
            proof {
                assert forall|q: int| 0 <= q < arrs@.len() implies (#[trigger] arrs@[q]).wf() && arrs@[q]@.len() == n by {
                    assert(sets_view(arrs@)[q] == arrs@[q]@);
                }
            }
            if !counts_fit_check(arrs, gset, groups, &group_sizes, n) {
                return false;
            }
            k = k + 1;
        }
        true
    }
}

} // verus!
