use vstd::prelude::*;
use crate::bits::{true_count, lemma_true_count_subset, ones_of, lemma_ones_of};
use crate::bitset::{BitSet, len_fits};
use crate::board::{Board, Tile, degrees_fit, tile_count, counters_consistent};
use crate::graph::Graph;
use crate::combinations::{combinations, is_combination, groups_union, canon, first_n, caps_of, valid, total, psum};
use crate::placements::{
    matches_on, has_match, on_groups, groups_fit, names_groups, lemma_region_iff, lemma_first_n_matches,
    lemma_overlap_extremes, lemma_all_combinations_match, all_on_groups, all_match, canonical_set, all_canonical,
};

verus! {

/// Every entry of `a` is also set in `b`.
pub open spec fn subset(a: Seq<bool>, b: Seq<bool>) -> bool {
    forall|i: int| 0 <= i < a.len() && #[trigger] a[i] ==> i < b.len() && b[i]
}

/// The views of a sequence of sets.
pub open spec fn sets_view(v: Seq<BitSet>) -> Seq<Seq<bool>> {
    Seq::new(v.len(), |i: int| v[i]@)
}

/// The positions set in some member of `sets`.
pub open spec fn union_seq(sets: Seq<Seq<bool>>, n: nat) -> Seq<bool> {
    Seq::new(n, |t: int| exists|k: int| 0 <= k < sets.len() && #[trigger] sets[k][t])
}

/// The positions of `base` set in no member of `arrs`.
pub open spec fn minus_all(base: Seq<bool>, arrs: Seq<Seq<bool>>) -> Seq<bool> {
    Seq::new(base.len(), |t: int| base[t] && forall|k: int| 0 <= k < arrs.len() ==> !#[trigger] arrs[k][t])
}

/// The positions of `base` set in every member of `arrs`.
pub open spec fn meet_all(base: Seq<bool>, arrs: Seq<Seq<bool>>) -> Seq<bool> {
    Seq::new(base.len(), |t: int| base[t] && forall|k: int| 0 <= k < arrs.len() ==> #[trigger] arrs[k][t])
}

/// `out` without the tiles of every group of `group_set` that `out` does not hold whole.
pub open spec fn whole_groups(out: Seq<bool>, group_set: Seq<bool>, groups: Seq<Seq<bool>>) -> Seq<bool> {
    Seq::new(
        out.len(),
        |t: int|
            out[t] && !exists|g: int|
                0 <= g < group_set.len() && group_set[g] && g < groups.len() && #[trigger] groups[g][t]
                    && !subset(groups[g], out),
    )
}

/// The given groups of tiles do not overlap.
pub open spec fn disjoint_groups(groups: Seq<Seq<bool>>) -> bool {
    forall|a: int, b: int, t: int|
        0 <= a < groups.len() && 0 <= b < groups.len() && a != b && 0 <= t < groups[a].len()
            ==> !(#[trigger] groups[a][t] && #[trigger] groups[b][t])
}

/// A list of the possible arrangements of mines on one region of the board. The region
/// (`mask`) is a union of cell groups (`groups` holds their indices); each arrangement is a
/// set of tiles of the region.
pub struct ArrangementSet {
    mask: BitSet,
    groups: BitSet,
    arrangements: Vec<BitSet>,
}

/// All the possible arrangements of the remaining mines on a board, split into independent
/// regions.
pub struct MineArrangements {
    groups: Vec<BitSet>,
    sub_arrangements: Vec<ArrangementSet>,
    mask: BitSet,
    remaining_mines: usize,
    num_tiles: usize,
}

impl ArrangementSet {
    pub closed spec fn spec_mask(&self) -> Seq<bool> {
        self.mask@
    }

    pub closed spec fn spec_groups(&self) -> Seq<bool> {
        self.groups@
    }

    pub closed spec fn spec_arrangements(&self) -> Seq<Seq<bool>> {
        sets_view(self.arrangements@)
    }

    /// All sets have `n` positions, the group indices are below `num_groups`, and every
    /// arrangement lies inside the region.
    pub closed spec fn wf_in(&self, n: nat, num_groups: nat) -> bool {
        &&& self.mask.wf()
        &&& self.mask@.len() == n
        &&& self.groups.wf()
        &&& self.groups@.len() == n
        &&& forall|g: int| 0 <= g < n && #[trigger] self.groups@[g] ==> g < num_groups
        &&& forall|k: int|
            0 <= k < self.arrangements@.len() ==> (#[trigger] self.arrangements@[k]).wf()
                && self.arrangements@[k]@.len() == n && subset(self.arrangements@[k]@, self.mask@)
    }

    /// The tiles that are safe in every arrangement, keeping only whole groups.
    pub closed spec fn spec_solved_safe(&self, groups: Seq<Seq<bool>>) -> Seq<bool> {
        whole_groups(minus_all(self.mask@, self.spec_arrangements()), self.groups@, groups)
    }

    /// The tiles that hold a mine in every arrangement, keeping only whole groups.
    pub closed spec fn spec_solved_mines(&self, groups: Seq<Seq<bool>>) -> Seq<bool> {
        whole_groups(meet_all(self.mask@, self.spec_arrangements()), self.groups@, groups)
    }
}

/// Removes from `out` every group of `group_set` that it does not hold whole.
fn remove_partial_groups(out: &mut BitSet, group_set: &BitSet, groups: &Vec<BitSet>)
    requires
        old(out).wf(),
        group_set.wf(),
        group_set@.len() == old(out)@.len(),
        forall|g: int| 0 <= g < group_set@.len() && #[trigger] group_set@[g] ==> g < groups@.len(),
        forall|g: int| 0 <= g < groups@.len() ==> (#[trigger] groups@[g]).wf() && groups@[g]@.len() == old(out)@.len(),
        disjoint_groups(sets_view(groups@)),
    ensures
        final(out).wf(),
        final(out)@ == whole_groups(old(out)@, group_set@, sets_view(groups@)),
{
    let ghost out0 = out@;
    let ghost gs = sets_view(groups@);
    let ones = group_set.iter_ones();
    proof {
        crate::bitset::lemma_storage_covers(group_set);
        crate::bits::lemma_ones_of(group_set@);
    }
    let mut k: usize = 0;
    while k < ones.len()
        invariant
            out.wf(),
            out@.len() == out0.len(),
            group_set@.len() == out0.len(),
            len_fits(group_set@.len()),
            ones@ == crate::bits::ones_of(group_set@),
            k <= ones@.len(),
            gs == sets_view(groups@),
            forall|m: int| 0 <= m < ones@.len() ==> #[trigger] ones@[m] < group_set@.len() && group_set@[ones@[m] as int],
            forall|a: int, b: int| 0 <= a < b < ones@.len() ==> ones@[a] < ones@[b],
            forall|i: int| 0 <= i < group_set@.len() && group_set@[i] ==> ones@.contains(i as usize),
            forall|g: int| 0 <= g < group_set@.len() && #[trigger] group_set@[g] ==> g < groups@.len(),
            forall|g: int| 0 <= g < groups@.len() ==> (#[trigger] groups@[g]).wf() && groups@[g]@.len() == out0.len(),
            disjoint_groups(gs),
            forall|t: int| 0 <= t < out0.len() ==> #[trigger] out@[t] == (out0[t] && !exists|m: int|
                0 <= m < k && #[trigger] gs[ones@[m] as int][t] && !subset(gs[ones@[m] as int], out0)),
        decreases ones.len() - k,
    {
        let g = ones[k];
        let ghost before = out@;
        proof {
            // the group's subset test against the current set agrees with the test against out0
            assert forall|t: int| 0 <= t < out0.len() && #[trigger] gs[g as int][t] implies before[t] == out0[t] by {
                if exists|m: int| 0 <= m < k && #[trigger] gs[ones@[m] as int][t] && !subset(gs[ones@[m] as int], out0) {
                    let m = choose|m: int| 0 <= m < k && #[trigger] gs[ones@[m] as int][t] && !subset(gs[ones@[m] as int], out0);
                    assert(ones@[m] < ones@[k as int]);
                    assert(!(gs[ones@[m] as int][t] && gs[g as int][t]));
                }
            }
            assert(subset(gs[g as int], before) == subset(gs[g as int], out0));
        }
        if !groups[g].is_subset_of(out) {
            out.sub_assign(&groups[g]);
        }
        proof {
            assert forall|t: int| 0 <= t < out0.len() implies #[trigger] out@[t] == (out0[t] && !exists|m: int|
                0 <= m < k + 1 && #[trigger] gs[ones@[m] as int][t] && !subset(gs[ones@[m] as int], out0)) by {
                if exists|m: int| 0 <= m < k + 1 && #[trigger] gs[ones@[m] as int][t] && !subset(gs[ones@[m] as int], out0) {
                    let m = choose|m: int| 0 <= m < k + 1 && #[trigger] gs[ones@[m] as int][t] && !subset(gs[ones@[m] as int], out0);
                    if m < k {
                        assert(!before[t]);
                    }
                }
            }
        }
        k = k + 1;
    }
    proof {
        assert forall|t: int| 0 <= t < out0.len() implies #[trigger] out@[t] == whole_groups(out0, group_set@, gs)[t] by {
            if exists|g: int|
                0 <= g < group_set@.len() && group_set@[g] && g < gs.len() && #[trigger] gs[g][t] && !subset(gs[g], out0) {
                let g = choose|g: int|
                    0 <= g < group_set@.len() && group_set@[g] && g < gs.len() && #[trigger] gs[g][t] && !subset(gs[g], out0);
                assert(ones@.contains(g as usize));
                let m = choose|m: int| 0 <= m < ones@.len() && ones@[m] == g as usize;
                assert(gs[ones@[m] as int][t]);
            }
            if exists|m: int| 0 <= m < ones@.len() && #[trigger] gs[ones@[m] as int][t] && !subset(gs[ones@[m] as int], out0) {
                let m = choose|m: int| 0 <= m < ones@.len() && #[trigger] gs[ones@[m] as int][t] && !subset(gs[ones@[m] as int], out0);
                let g = ones@[m] as int;
                assert(group_set@[g] && g < gs.len() && gs[g][t]);
            }
        }
        assert(out@ =~= whole_groups(out0, group_set@, gs));
    }
}

/// Positions set in `a` or in `b`.
pub open spec fn or_seq(a: Seq<bool>, b: Seq<bool>) -> Seq<bool> {
    Seq::new(a.len(), |t: int| a[t] || b[t])
}

proof fn lemma_union_step(sets: Seq<Seq<bool>>, k: int, n: nat)
    requires
        0 <= k < sets.len(),
        sets[k].len() == n,
    ensures
        union_seq(sets.take(k + 1), n) == or_seq(union_seq(sets.take(k), n), sets[k]),
{
    let a = union_seq(sets.take(k + 1), n);
    let b = or_seq(union_seq(sets.take(k), n), sets[k]);
    assert forall|t: int| 0 <= t < n implies a[t] == b[t] by {
        if exists|m: int| 0 <= m < k + 1 && #[trigger] sets.take(k + 1)[m][t] {
            let m = choose|m: int| 0 <= m < k + 1 && #[trigger] sets.take(k + 1)[m][t];
            if m < k {
                assert(sets.take(k)[m][t]);
            }
        }
        if exists|m: int| 0 <= m < k && #[trigger] sets.take(k)[m][t] {
            let m = choose|m: int| 0 <= m < k && #[trigger] sets.take(k)[m][t];
            assert(sets.take(k + 1)[m][t]);
        }
        if sets[k][t] {
            assert(sets.take(k + 1)[k][t]);
        }
    }
    assert(a =~= b);
}

proof fn lemma_minus_step(base: Seq<bool>, arrs: Seq<Seq<bool>>, k: int)
    requires
        0 <= k < arrs.len(),
    ensures
        minus_all(base, arrs.take(k + 1)) == Seq::new(base.len(), |t: int| minus_all(base, arrs.take(k))[t] && !arrs[k][t]),
        meet_all(base, arrs.take(k + 1)) == Seq::new(base.len(), |t: int| meet_all(base, arrs.take(k))[t] && arrs[k][t]),
{
    let a1 = arrs.take(k + 1);
    let a0 = arrs.take(k);
    assert forall|m: int| 0 <= m < k + 1 implies #[trigger] a1[m] == arrs[m] by {}
    assert forall|m: int| 0 <= m < k implies #[trigger] a0[m] == arrs[m] by {}
    assert forall|t: int| 0 <= t < base.len() implies #[trigger] minus_all(base, a1)[t]
        == (minus_all(base, a0)[t] && !arrs[k][t]) by {
        let p1 = forall|m: int| 0 <= m < k + 1 ==> !#[trigger] a1[m][t];
        let p0 = forall|m: int| 0 <= m < k ==> !#[trigger] a0[m][t];
        if p1 {
            assert(!a1[k][t]);
            assert forall|m: int| 0 <= m < k implies !#[trigger] a0[m][t] by {
                assert(!a1[m][t]);
            }
        }
        if p0 && !arrs[k][t] {
            assert forall|m: int| 0 <= m < k + 1 implies !#[trigger] a1[m][t] by {
                if m < k {
                    assert(!a0[m][t]);
                }
            }
        }
    }
    assert forall|t: int| 0 <= t < base.len() implies #[trigger] meet_all(base, a1)[t]
        == (meet_all(base, a0)[t] && arrs[k][t]) by {
        let p1 = forall|m: int| 0 <= m < k + 1 ==> #[trigger] a1[m][t];
        let p0 = forall|m: int| 0 <= m < k ==> #[trigger] a0[m][t];
        if p1 {
            assert(a1[k][t]);
            assert forall|m: int| 0 <= m < k implies #[trigger] a0[m][t] by {
                assert(a1[m][t]);
            }
        }
        if p0 && arrs[k][t] {
            assert forall|m: int| 0 <= m < k + 1 implies #[trigger] a1[m][t] by {
                if m < k {
                    assert(a0[m][t]);
                }
            }
        }
    }
    assert(minus_all(base, a1) =~= Seq::new(base.len(), |t: int| minus_all(base, a0)[t] && !arrs[k][t]));
    assert(meet_all(base, a1) =~= Seq::new(base.len(), |t: int| meet_all(base, a0)[t] && arrs[k][t]));
}

impl ArrangementSet {
    /// The tiles safe in every arrangement, as whole groups.
    fn solved_safe(&self, groups: &Vec<BitSet>) -> (r: BitSet)
        requires
            self.wf_in(self.mask@.len(), groups@.len()),
            forall|g: int| 0 <= g < groups@.len() ==> (#[trigger] groups@[g]).wf() && groups@[g]@.len() == self.mask@.len(),
            disjoint_groups(sets_view(groups@)),
        ensures
            r.wf(),
            r@ == self.spec_solved_safe(sets_view(groups@)),
    {
        let mut out = self.mask.clone();
        let mut k: usize = 0;
        assert(out@ =~= minus_all(self.mask@, self.spec_arrangements().take(0)));
        while k < self.arrangements.len()
            invariant
                self.wf_in(self.mask@.len(), groups@.len()),
                out.wf(),
                k <= self.arrangements@.len(),
                out@ == minus_all(self.mask@, self.spec_arrangements().take(k as int)),
            decreases self.arrangements.len() - k,
        {
            proof {
                lemma_minus_step(self.mask@, self.spec_arrangements(), k as int);
            }
            out.sub_assign(&self.arrangements[k]);
            assert(out@ =~= minus_all(self.mask@, self.spec_arrangements().take(k + 1)));
            k = k + 1;
        }
        assert(self.spec_arrangements().take(self.arrangements@.len() as int) == self.spec_arrangements());
        remove_partial_groups(&mut out, &self.groups, groups);
        out
    }

    /// The tiles holding a mine in every arrangement, as whole groups.
    fn solved_mines(&self, groups: &Vec<BitSet>) -> (r: BitSet)
        requires
            self.wf_in(self.mask@.len(), groups@.len()),
            forall|g: int| 0 <= g < groups@.len() ==> (#[trigger] groups@[g]).wf() && groups@[g]@.len() == self.mask@.len(),
            disjoint_groups(sets_view(groups@)),
        ensures
            r.wf(),
            r@ == self.spec_solved_mines(sets_view(groups@)),
    {
        let mut out = self.mask.clone();
        let mut k: usize = 0;
        assert(out@ =~= meet_all(self.mask@, self.spec_arrangements().take(0)));
        while k < self.arrangements.len()
            invariant
                self.wf_in(self.mask@.len(), groups@.len()),
                out.wf(),
                k <= self.arrangements@.len(),
                out@ == meet_all(self.mask@, self.spec_arrangements().take(k as int)),
            decreases self.arrangements.len() - k,
        {
            proof {
                lemma_minus_step(self.mask@, self.spec_arrangements(), k as int);
            }
            out.bitand_assign(&self.arrangements[k]);
            assert(out@ =~= meet_all(self.mask@, self.spec_arrangements().take(k + 1)));
            k = k + 1;
        }
        assert(self.spec_arrangements().take(self.arrangements@.len() as int) == self.spec_arrangements());
        remove_partial_groups(&mut out, &self.groups, groups);
        out
    }
}

impl MineArrangements {
    pub closed spec fn spec_num_tiles(&self) -> nat {
        self.num_tiles as nat
    }

    pub closed spec fn spec_mask(&self) -> Seq<bool> {
        self.mask@
    }

    pub closed spec fn spec_remaining_mines(&self) -> nat {
        self.remaining_mines as nat
    }

    pub closed spec fn spec_groups(&self) -> Seq<Seq<bool>> {
        sets_view(self.groups@)
    }

    pub closed spec fn spec_subs(&self) -> Seq<ArrangementSet> {
        self.sub_arrangements@
    }

    /// Every set has one position per tile, the groups do not overlap, every region lies
    /// inside the undecided tiles, and some tile is not undecided when there is a region.
    pub closed spec fn wf(&self) -> bool {
        let n = self.num_tiles as nat;
        &&& self.mask.wf()
        &&& self.mask@.len() == n
        &&& len_fits(n)
        &&& forall|g: int| 0 <= g < self.groups@.len() ==> (#[trigger] self.groups@[g]).wf() && self.groups@[g]@.len() == n
        &&& disjoint_groups(sets_view(self.groups@))
        &&& forall|k: int|
            0 <= k < self.sub_arrangements@.len() ==> (#[trigger] self.sub_arrangements@[k]).wf_in(
                n,
                self.groups@.len() as nat,
            ) && subset(self.sub_arrangements@[k].mask@, self.mask@)
        &&& self.sub_arrangements@.len() > 0 ==> true_count(self.mask@) < n
    }

    /// The undecided tiles outside every region.
    pub closed spec fn spec_unconstrained(&self) -> Seq<bool> {
        minus_all(self.mask@, Seq::new(self.sub_arrangements@.len(), |k: int| self.sub_arrangements@[k].mask@))
    }

    /// The tiles proved safe and the tiles proved to hold mines: whole groups that are safe
    /// (or mined) in every arrangement of their region; and the tiles outside every region as
    /// well, when the regions' proved mines already account for every remaining mine (then
    /// they are safe), or when the tiles not proved safe are exactly as many as the remaining
    /// mines (then they are mines).
    pub closed spec fn spec_solved(&self) -> (Seq<bool>, Seq<bool>) {
        let n = self.num_tiles as nat;
        let gs = sets_view(self.groups@);
        let subs = self.sub_arrangements@;
        let safe = union_seq(Seq::new(subs.len(), |k: int| subs[k].spec_solved_safe(gs)), n);
        let mines = union_seq(Seq::new(subs.len(), |k: int| subs[k].spec_solved_mines(gs)), n);
        let unc = self.spec_unconstrained();
        if true_count(mines) == self.remaining_mines {
            (or_seq(safe, unc), mines)
        } else if true_count(self.mask@) - true_count(safe) == self.remaining_mines {
            (safe, or_seq(mines, unc))
        } else {
            (safe, mines)
        }
    }

    /// The undecided tiles outside every region.
    fn uncontrained_empties(&self) -> (r: BitSet)
        requires
            self.wf(),
        ensures
            r.wf(),
            r@ == self.spec_unconstrained(),
    {
        let ghost masks = Seq::new(self.sub_arrangements@.len(), |k: int| self.sub_arrangements@[k].mask@);
        let mut out = self.mask.clone();
        let mut k: usize = 0;
        assert(out@ =~= minus_all(self.mask@, masks.take(0)));
        while k < self.sub_arrangements.len()
            invariant
                self.wf(),
                out.wf(),
                k <= self.sub_arrangements@.len(),
                masks == Seq::new(self.sub_arrangements@.len(), |k: int| self.sub_arrangements@[k].mask@),
                out@ == minus_all(self.mask@, masks.take(k as int)),
            decreases self.sub_arrangements.len() - k,
        {
            proof {
                lemma_minus_step(self.mask@, masks, k as int);
                assert(self.sub_arrangements@[k as int].wf_in(self.num_tiles as nat, self.groups@.len() as nat));
            }
            out.sub_assign(&self.sub_arrangements[k].mask);
            assert(out@ =~= minus_all(self.mask@, masks.take(k + 1)));
            k = k + 1;
        }
        assert(masks.take(self.sub_arrangements@.len() as int) == masks);
        out
    }

    /// Every region's tiles are the tiles of its groups, and no two regions share a tile.
    pub open spec fn exact(&self) -> bool {
        &&& forall|k: int| 0 <= k < self.spec_subs().len() ==> on_groups(#[trigger] self.spec_subs()[k], self.spec_groups())
        &&& forall|a: int, b: int, t: int|
            0 <= a < self.spec_subs().len() && 0 <= b < self.spec_subs().len() && a != b && 0 <= t < self.spec_num_tiles()
                ==> !(#[trigger] self.spec_subs()[a].spec_mask()[t] && #[trigger] self.spec_subs()[b].spec_mask()[t])
    }

    /// `p` places the remaining mines on undecided tiles, and every region has an arrangement
    /// holding `p`'s canonical form there.
    pub open spec fn admits(&self, p: Seq<bool>) -> bool {
        &&& p.len() == self.spec_num_tiles()
        &&& subset(p, self.spec_mask())
        &&& true_count(p) == self.spec_remaining_mines()
        &&& forall|k: int| 0 <= k < self.spec_subs().len() ==> has_match(#[trigger] self.spec_subs()[k], p, self.spec_groups())
    }

    /// Inside one region: a tile proved safe holds no mine of an admitted placement, and a tile
    /// proved to hold a mine holds one.
    proof fn lemma_region_sound(&self, k: int, p: Seq<bool>, t: int)
        requires
            self.wf(),
            self.exact(),
            self.admits(p),
            0 <= k < self.spec_subs().len(),
            0 <= t < self.spec_num_tiles(),
        ensures
            self.spec_subs()[k].spec_solved_safe(self.spec_groups())[t] ==> !p[t],
            self.spec_subs()[k].spec_solved_mines(self.spec_groups())[t] ==> p[t],
            self.spec_subs()[k].spec_solved_safe(self.spec_groups())[t] ==> self.spec_mask()[t],
            self.spec_subs()[k].spec_solved_mines(self.spec_groups())[t] ==> self.spec_mask()[t],
            self.spec_subs()[k].spec_solved_safe(self.spec_groups())[t] ==> self.spec_subs()[k].spec_mask()[t],
            self.spec_subs()[k].spec_solved_mines(self.spec_groups())[t] ==> self.spec_subs()[k].spec_mask()[t],
    {
        let n = self.num_tiles as nat;
        let gs = self.spec_groups();
        let sub = self.spec_subs()[k];
        self.lemma_wf();
        sub.lemma_wf_in(n, gs.len());
        assert(on_groups(sub, gs));
        assert(has_match(sub, p, gs));
        let arrs = sub.spec_arrangements();
        let a = choose|a: Seq<bool>| #[trigger] arrs.contains(a) && matches_on(a, p, gs, sub.spec_groups());
        let ka = choose|ka: int| 0 <= ka < arrs.len() && arrs[ka] == a;
        assert(a.len() == n);
        let safe_out = minus_all(sub.mask@, arrs);
        let mine_out = meet_all(sub.mask@, arrs);
        if sub.spec_solved_safe(gs)[t] || sub.spec_solved_mines(gs)[t] {
            let out = if sub.spec_solved_safe(gs)[t] { safe_out } else { mine_out };
            assert(out[t]);
            assert(sub.mask@[t]);
            assert(region(gs, sub.groups@)[t]);
            lemma_region_iff(gs, sub.groups@, t);
            let g = choose|g: int| 0 <= g < sub.groups@.len() && sub.groups@[g] && #[trigger] gs[g][t];
            assert(g < gs.len());
            assert(subset(gs[g], out));
            let gg = gs[g];
            assert forall|u: int| 0 <= u < gg.len() && #[trigger] gg[u] implies a[u] == first_n(gg, overlap_count(p, gg) as int)[u] by {
                assert(sub.spec_groups()[g] && gs[g][u]);
            }
            lemma_first_n_matches(a, p, gg);
            lemma_overlap_extremes(p, gg);
            let ag = Seq::new(a.len(), |i: int| a[i] && gg[i]);
            if sub.spec_solved_safe(gs)[t] {
                assert forall|u: int| 0 <= u < ag.len() implies !ag[u] by {
                    if gg[u] {
                        assert(safe_out[u]);
                        assert(!arrs[ka][u]);
                    }
                }
                crate::bits::lemma_true_count_zero(ag);
            } else {
                assert(ag =~= gg) by {
                    assert forall|u: int| 0 <= u < ag.len() implies ag[u] == gg[u] by {
                        if gg[u] {
                            assert(mine_out[u]);
                            assert(arrs[ka][u]);
                        }
                    }
                }
            }
        }
    }

    /// Soundness of the deductions: for every placement the arrangements admit, a tile proved
    /// safe holds no mine and a tile proved to hold a mine holds one.
    pub proof fn law_solved_sound(&self, p: Seq<bool>)
        requires
            self.wf(),
            self.exact(),
            self.admits(p),
        ensures
            forall|t: int| 0 <= t < self.spec_num_tiles() && #[trigger] self.spec_solved().0[t] ==> !p[t],
            forall|t: int| 0 <= t < self.spec_num_tiles() && #[trigger] self.spec_solved().1[t] ==> p[t],
    {
        let n = self.num_tiles as nat;
        let gs = self.spec_groups();
        let subs = self.sub_arrangements@;
        let safes = Seq::new(subs.len(), |k: int| subs[k].spec_solved_safe(gs));
        let mineses = Seq::new(subs.len(), |k: int| subs[k].spec_solved_mines(gs));
        let safe = union_seq(safes, n);
        let mines = union_seq(mineses, n);
        let unc = self.spec_unconstrained();
        self.lemma_wf();
        assert forall|t: int| 0 <= t < n implies (safe[t] ==> !p[t] && self.mask@[t] && !unc[t]) && (mines[t] ==> p[t]
            && self.mask@[t] && !unc[t]) by {
            if safe[t] {
                let k = choose|k: int| 0 <= k < safes.len() && #[trigger] safes[k][t];
                self.lemma_region_sound(k, p, t);
                let masks = Seq::new(self.sub_arrangements@.len(), |k: int| self.sub_arrangements@[k].mask@);
                assert(masks[k][t]);
                assert(!unc[t]);
            }
            if mines[t] {
                let k = choose|k: int| 0 <= k < mineses.len() && #[trigger] mineses[k][t];
                self.lemma_region_sound(k, p, t);
                let masks = Seq::new(self.sub_arrangements@.len(), |k: int| self.sub_arrangements@[k].mask@);
                assert(masks[k][t]);
                assert(!unc[t]);
            }
        }
        if true_count(mines) == self.remaining_mines {
            assert forall|t: int| 0 <= t < n && unc[t] implies !p[t] by {
                if p[t] {
                    crate::arrangements::lemma_true_count_strict(mines, p, t);
                }
            }
        } else if true_count(self.mask@) - true_count(safe) == self.remaining_mines {
            let d = minus_seq(self.mask@, safe);
            assert(Seq::new(safe.len(), |i: int| safe[i] || d[i]) =~= self.mask@);
            crate::combinations::lemma_true_count_disjoint_or(safe, d);
            assert forall|t: int| 0 <= t < n && unc[t] implies p[t] by {
                if !p[t] {
                    assert(self.mask@[t]);
                    crate::arrangements::lemma_true_count_strict(p, d, t);
                }
            }
        }
    }

    /// Tile `t` lies in a group of some region, and every arrangement of that region leaves
    /// the whole group free of mines.
    pub open spec fn region_clears(&self, t: int) -> bool {
        exists|k: int, g: int|
            #![trigger self.spec_subs()[k].spec_groups()[g], self.spec_groups()[g][t]]
            0 <= k < self.spec_subs().len() && 0 <= g < self.spec_groups().len() && self.spec_subs()[k].spec_groups()[g]
                && self.spec_groups()[g][t] && forall|u: int|
                0 <= u < self.spec_num_tiles() && #[trigger] self.spec_groups()[g][u] ==> self.spec_subs()[k].spec_mask()[u]
                    && forall|j: int|
                    0 <= j < self.spec_subs()[k].spec_arrangements().len() ==> !#[trigger] self.spec_subs()[k].spec_arrangements()[j][u]
    }

    /// Tile `t` lies in a group of some region, and every arrangement of that region puts a
    /// mine on each tile of the group.
    pub open spec fn region_fills(&self, t: int) -> bool {
        exists|k: int, g: int|
            #![trigger self.spec_subs()[k].spec_groups()[g], self.spec_groups()[g][t]]
            0 <= k < self.spec_subs().len() && 0 <= g < self.spec_groups().len() && self.spec_subs()[k].spec_groups()[g]
                && self.spec_groups()[g][t] && forall|u: int|
                0 <= u < self.spec_num_tiles() && #[trigger] self.spec_groups()[g][u] ==> self.spec_subs()[k].spec_mask()[u]
                    && forall|j: int|
                    0 <= j < self.spec_subs()[k].spec_arrangements().len() ==> #[trigger] self.spec_subs()[k].spec_arrangements()[j][u]
    }

    /// A tile of a whole group that is free of mines (`clears`) or mined (otherwise) in every
    /// arrangement of region `k` is among that region's proved tiles.
    proof fn lemma_group_reported(&self, t: int, k: int, g: int, clears: bool)
        requires
            self.wf(),
            0 <= t < self.spec_num_tiles(),
            0 <= k < self.spec_subs().len(),
            0 <= g < self.spec_groups().len(),
            self.spec_subs()[k].spec_groups()[g],
            self.spec_groups()[g][t],
            forall|u: int|
                0 <= u < self.spec_num_tiles() && #[trigger] self.spec_groups()[g][u] ==> self.spec_subs()[k].spec_mask()[u]
                    && forall|j: int|
                    0 <= j < self.spec_subs()[k].spec_arrangements().len() ==> #[trigger] self.spec_subs()[k].spec_arrangements()[j][u]
                        != clears,
        ensures
            clears ==> self.spec_subs()[k].spec_solved_safe(self.spec_groups())[t],
            !clears ==> self.spec_subs()[k].spec_solved_mines(self.spec_groups())[t],
    {
        let n = self.num_tiles as nat;
        let gs = self.spec_groups();
        let sub = self.sub_arrangements@[k];
        self.lemma_wf();
        sub.lemma_wf_in(n, gs.len());
        let arrs = sub.spec_arrangements();
        let out = if clears {
            minus_all(sub.mask@, arrs)
        } else {
            meet_all(sub.mask@, arrs)
        };
        assert(gs[g].len() == n);
        assert forall|u: int| 0 <= u < gs[g].len() && #[trigger] gs[g][u] implies u < out.len() && out[u] by {
            assert(self.spec_subs()[k].spec_mask()[u]);
            if clears {
                assert forall|j: int| 0 <= j < arrs.len() implies !#[trigger] arrs[j][u] by {
                    assert(self.spec_subs()[k].spec_arrangements()[j][u] != clears);
                }
            } else {
                assert forall|j: int| 0 <= j < arrs.len() implies #[trigger] arrs[j][u] by {
                    assert(self.spec_subs()[k].spec_arrangements()[j][u] != clears);
                }
            }
        }
        assert(subset(gs[g], out));
        assert(out[t]);
        let w = whole_groups(out, sub.groups@, gs);
        assert(w[t]) by {
            if exists|g2: int|
                0 <= g2 < sub.groups@.len() && sub.groups@[g2] && g2 < gs.len() && #[trigger] gs[g2][t] && !subset(gs[g2], out) {
                let g2 = choose|g2: int|
                    0 <= g2 < sub.groups@.len() && sub.groups@[g2] && g2 < gs.len() && #[trigger] gs[g2][t] && !subset(gs[g2], out);
                if g2 != g {
                    assert(!(gs[g][t] && gs[g2][t]));
                }
            }
        }
    }

    /// Completeness inside the regions: a tile whose whole group is free of mines in every
    /// arrangement of its region is reported safe, and one whose whole group is mined in every
    /// arrangement is reported as a mine.
    pub proof fn law_solved_reports_regions(&self, t: int)
        requires
            self.wf(),
            0 <= t < self.spec_num_tiles(),
        ensures
            self.region_clears(t) ==> self.spec_solved().0[t],
            self.region_fills(t) ==> self.spec_solved().1[t],
    {
        self.lemma_regions_reported(t);
    }

    /// A tile that a region clears (fills) is among the regions' proved safe tiles (mines).
    proof fn lemma_regions_reported(&self, t: int)
        requires
            self.wf(),
            0 <= t < self.spec_num_tiles(),
        ensures
            self.region_clears(t) ==> union_seq(
                Seq::new(self.sub_arrangements@.len(), |k: int| self.sub_arrangements@[k].spec_solved_safe(self.spec_groups())),
                self.num_tiles as nat,
            )[t],
            self.region_fills(t) ==> union_seq(
                Seq::new(self.sub_arrangements@.len(), |k: int| self.sub_arrangements@[k].spec_solved_mines(self.spec_groups())),
                self.num_tiles as nat,
            )[t],
            self.region_clears(t) ==> self.spec_solved().0[t],
            self.region_fills(t) ==> self.spec_solved().1[t],
    {
        let n = self.num_tiles as nat;
        let gs = self.spec_groups();
        let subs = self.sub_arrangements@;
        let safes = Seq::new(subs.len(), |k: int| subs[k].spec_solved_safe(gs));
        let mineses = Seq::new(subs.len(), |k: int| subs[k].spec_solved_mines(gs));
        if self.region_clears(t) {
            let (k, g) = choose|k: int, g: int|
                #![trigger self.spec_subs()[k].spec_groups()[g], self.spec_groups()[g][t]]
                0 <= k < self.spec_subs().len() && 0 <= g < self.spec_groups().len() && self.spec_subs()[k].spec_groups()[g]
                    && self.spec_groups()[g][t] && forall|u: int|
                    0 <= u < self.spec_num_tiles() && #[trigger] self.spec_groups()[g][u] ==> self.spec_subs()[k].spec_mask()[u]
                        && forall|j: int|
                        0 <= j < self.spec_subs()[k].spec_arrangements().len() ==> !#[trigger] self.spec_subs()[k].spec_arrangements()[j][u];
            self.lemma_group_reported(t, k, g, true);
            assert(safes[k][t]);
        }
        if self.region_fills(t) {
            let (k, g) = choose|k: int, g: int|
                #![trigger self.spec_subs()[k].spec_groups()[g], self.spec_groups()[g][t]]
                0 <= k < self.spec_subs().len() && 0 <= g < self.spec_groups().len() && self.spec_subs()[k].spec_groups()[g]
                    && self.spec_groups()[g][t] && forall|u: int|
                    0 <= u < self.spec_num_tiles() && #[trigger] self.spec_groups()[g][u] ==> self.spec_subs()[k].spec_mask()[u]
                        && forall|j: int|
                        0 <= j < self.spec_subs()[k].spec_arrangements().len() ==> #[trigger] self.spec_subs()[k].spec_arrangements()[j][u];
            self.lemma_group_reported(t, k, g, false);
            assert(mineses[k][t]);
        }
    }

    /// Completeness forced by the count of mines, for the undecided tiles outside every region
    /// (given some placement the arrangements admit): when the undecided tiles that the regions
    /// do not clear are exactly as many as the remaining mines, every tile outside the regions
    /// is reported as a mine; when the tiles the regions fill are exactly the remaining mines,
    /// every tile outside the regions is reported safe.
    pub proof fn law_solved_count_forced(&self, p: Seq<bool>)
        requires
            self.wf(),
            self.exact(),
            self.admits(p),
        ensures
            true_count(self.spec_mask()) - true_count(Seq::new(self.spec_num_tiles(), |t: int| self.region_clears(t)))
                == self.spec_remaining_mines() ==> forall|t: int|
                0 <= t < self.spec_num_tiles() && self.spec_mask()[t] && (forall|k: int|
                    0 <= k < self.spec_subs().len() ==> !#[trigger] self.spec_subs()[k].spec_mask()[t])
                    ==> #[trigger] self.spec_solved().1[t],
            true_count(Seq::new(self.spec_num_tiles(), |t: int| self.region_fills(t))) == self.spec_remaining_mines()
                ==> forall|t: int|
                0 <= t < self.spec_num_tiles() && self.spec_mask()[t] && (forall|k: int|
                    0 <= k < self.spec_subs().len() ==> !#[trigger] self.spec_subs()[k].spec_mask()[t])
                    ==> #[trigger] self.spec_solved().0[t],
    {
        let n = self.num_tiles as nat;
        let gs = self.spec_groups();
        let subs = self.sub_arrangements@;
        let safes = Seq::new(subs.len(), |k: int| subs[k].spec_solved_safe(gs));
        let mineses = Seq::new(subs.len(), |k: int| subs[k].spec_solved_mines(gs));
        let safe = union_seq(safes, n);
        let mines = union_seq(mineses, n);
        let unc = self.spec_unconstrained();
        let masks = Seq::new(self.sub_arrangements@.len(), |k: int| self.sub_arrangements@[k].mask@);
        let clr = Seq::new(n, |t: int| self.region_clears(t));
        let fil = Seq::new(n, |t: int| self.region_fills(t));
        self.lemma_wf();
        assert forall|t: int| 0 <= t < n implies (safe[t] ==> !p[t] && self.mask@[t] && !unc[t]) && (mines[t] ==> p[t]
            && self.mask@[t] && !unc[t]) by {
            if safe[t] {
                let k = choose|k: int| 0 <= k < safes.len() && #[trigger] safes[k][t];
                self.lemma_region_sound(k, p, t);
                assert(masks[k][t]);
            }
            if mines[t] {
                let k = choose|k: int| 0 <= k < mineses.len() && #[trigger] mineses[k][t];
                self.lemma_region_sound(k, p, t);
                assert(masks[k][t]);
            }
        }
        assert forall|t: int| 0 <= t < n implies (clr[t] ==> safe[t]) && (fil[t] ==> mines[t]) by {
            self.lemma_regions_reported(t);
        }
        assert forall|t: int| 0 <= t < n && self.mask@[t] && (forall|k: int|
            0 <= k < self.spec_subs().len() ==> !#[trigger] self.spec_subs()[k].spec_mask()[t]) implies unc[t] by {
            assert forall|k: int| 0 <= k < masks.len() implies !#[trigger] masks[k][t] by {
                assert(!self.spec_subs()[k].spec_mask()[t]);
            }
        }
        // the placement lies on the undecided tiles not proved safe
        let rest = minus_seq(self.mask@, safe);
        assert(Seq::new(safe.len(), |i: int| safe[i] || rest[i]) =~= self.mask@);
        crate::combinations::lemma_true_count_disjoint_or(safe, rest);
        lemma_true_count_subset(p, rest);
        lemma_true_count_subset(clr, safe);
        lemma_true_count_subset(fil, mines);
        lemma_true_count_subset(mines, p);
        if true_count(self.mask@) - true_count(clr) == self.remaining_mines {
            assert(true_count(self.mask@) - true_count(safe) == self.remaining_mines);
            if true_count(mines) == self.remaining_mines {
                assert forall|t: int| 0 <= t < n implies !unc[t] by {
                    if unc[t] {
                        assert(!safe[t]);
                        if !p[t] {
                            lemma_true_count_strict(p, rest, t);
                        }
                        lemma_true_count_strict(mines, p, t);
                    }
                }
            }
            assert forall|t: int|
                0 <= t < self.spec_num_tiles() && self.spec_mask()[t] && (forall|k: int|
                    0 <= k < self.spec_subs().len() ==> !#[trigger] self.spec_subs()[k].spec_mask()[t])
                    implies #[trigger] self.spec_solved().1[t] by {
                assert(unc[t]);
                if true_count(mines) != self.remaining_mines {
                    assert(self.spec_solved().1 == or_seq(mines, unc));
                }
            }
        }
    }

    /// The tiles proved safe and the tiles proved to hold mines.
    pub fn solved(&self) -> (r: (BitSet, BitSet))
        requires
            self.wf(),
        ensures
            r.0.wf(),
            r.1.wf(),
            (r.0@, r.1@) == self.spec_solved(),
            subset(r.0@, self.spec_mask()),
            subset(r.1@, self.spec_mask()),
            r.0@.len() == self.spec_num_tiles(),
            r.1@.len() == self.spec_num_tiles(),
            self.exact() ==> forall|p: Seq<bool>| #[trigger] self.admits(p) ==> {
                &&& forall|t: int| 0 <= t < self.spec_num_tiles() && #[trigger] r.0@[t] ==> !p[t]
                &&& forall|t: int| 0 <= t < self.spec_num_tiles() && #[trigger] r.1@[t] ==> p[t]
            },
            forall|t: int| 0 <= t < self.spec_num_tiles() && #[trigger] self.region_clears(t) ==> r.0@[t],
            forall|t: int| 0 <= t < self.spec_num_tiles() && #[trigger] self.region_fills(t) ==> r.1@[t],
    {
        let n = self.num_tiles;
        let ghost gs = sets_view(self.groups@);
        let ghost subs = self.sub_arrangements@;
        let ghost safes = Seq::new(subs.len(), |k: int| subs[k].spec_solved_safe(gs));
        let ghost mineses = Seq::new(subs.len(), |k: int| subs[k].spec_solved_mines(gs));
        let mut safe = BitSet::zeros(n);
        let mut mines = BitSet::zeros(n);
        assert(safe@ =~= union_seq(safes.take(0), n as nat));
        assert(mines@ =~= union_seq(mineses.take(0), n as nat));
        let mut k: usize = 0;
        while k < self.sub_arrangements.len()
            invariant
                self.wf(),
                n == self.num_tiles,
                gs == sets_view(self.groups@),
                subs == self.sub_arrangements@,
                safes == Seq::new(subs.len(), |k: int| subs[k].spec_solved_safe(gs)),
                mineses == Seq::new(subs.len(), |k: int| subs[k].spec_solved_mines(gs)),
                safe.wf(),
                mines.wf(),
                k <= subs.len(),
                safe@ == union_seq(safes.take(k as int), n as nat),
                mines@ == union_seq(mineses.take(k as int), n as nat),
                subset(safe@, self.mask@),
                subset(mines@, self.mask@),
            decreases self.sub_arrangements.len() - k,
        {
            let sub = &self.sub_arrangements[k];
            proof {
                assert(subs[k as int].wf_in(n as nat, self.groups@.len() as nat));
            }
            let s = sub.solved_safe(&self.groups);
            let m = sub.solved_mines(&self.groups);
            proof {
                lemma_union_step(safes, k as int, n as nat);
                lemma_union_step(mineses, k as int, n as nat);
                assert(subset(sub.mask@, self.mask@));
            }
            safe.add_assign(&s);
            mines.add_assign(&m);
            assert(safe@ =~= union_seq(safes.take(k + 1), n as nat));
            assert(mines@ =~= union_seq(mineses.take(k + 1), n as nat));
            k = k + 1;
        }
        assert(safes.take(subs.len() as int) == safes);
        assert(mineses.take(subs.len() as int) == mineses);
        let unc = self.uncontrained_empties();
        let mine_count = mines.count_ones();
        if mine_count == self.remaining_mines {
            safe.add_assign(&unc);
        } else {
            proof {
                lemma_true_count_subset(safe@, self.mask@);
            }
            let mask_count = self.mask.count_ones();
            let safe_count = safe.count_ones();
            if mask_count - safe_count == self.remaining_mines {
                mines.add_assign(&unc);
            }
        }
        proof {
            assert(safe@ =~= self.spec_solved().0);
            assert(mines@ =~= self.spec_solved().1);
            if self.exact() {
                assert forall|p: Seq<bool>| #[trigger] self.admits(p) implies {
                    &&& forall|t: int| 0 <= t < self.spec_num_tiles() && #[trigger] safe@[t] ==> !p[t]
                    &&& forall|t: int| 0 <= t < self.spec_num_tiles() && #[trigger] mines@[t] ==> p[t]
                } by {
                    self.law_solved_sound(p);
                }
            }
            assert forall|t: int| 0 <= t < self.spec_num_tiles() && #[trigger] self.region_clears(t) implies safe@[t] by {
                self.law_solved_reports_regions(t);
            }
            assert forall|t: int| 0 <= t < self.spec_num_tiles() && #[trigger] self.region_fills(t) implies mines@[t] by {
                self.law_solved_reports_regions(t);
            }
        }
        (safe, mines)
    }
}


// ---------------------------------------------------------------------------------------------
// Building arrangement sets

/// The tiles of the groups of `group_set`.
pub open spec fn region(gs: Seq<Seq<bool>>, group_set: Seq<bool>) -> Seq<bool> {
    groups_union(gs, ones_of(group_set), group_set.len())
}

/// The number of tiles of `m` that `a` holds.
pub open spec fn overlap_count(a: Seq<bool>, m: Seq<bool>) -> nat {
    true_count(Seq::new(a.len(), |i: int| a[i] && m[i]))
}

/// The group indices name groups of `groups`, which have one position per tile.
pub open spec fn group_set_ok(groups: Seq<BitSet>, group_set: Seq<bool>) -> bool {
    &&& len_fits(group_set.len())
    &&& disjoint_groups(sets_view(groups))
    &&& forall|g: int| 0 <= g < groups.len() ==> (#[trigger] groups[g]).wf() && groups[g]@.len() == group_set.len()
    &&& forall|g: int| 0 <= g < group_set.len() && #[trigger] group_set[g] ==> g < groups.len()
}

/// A combination lies on the tiles of its groups.
pub proof fn lemma_combination_in_region(c: Seq<bool>, gs: Seq<Seq<bool>>, group_set: Seq<bool>, num: nat)
    requires
        is_combination(c, gs, group_set, num),
        forall|g: int| 0 <= g < gs.len() ==> (#[trigger] gs[g]).len() == group_set.len(),
        forall|g: int| 0 <= g < group_set.len() && #[trigger] group_set[g] ==> g < gs.len(),
        group_set.len() <= usize::MAX,
    ensures
        c.len() == group_set.len(),
        subset(c, region(gs, group_set)),
{
    let order = ones_of(group_set);
    lemma_ones_of(group_set);
    let kv = choose|kv: Seq<usize>| valid(kv, caps_of(gs, order), num) && c == #[trigger] canon(gs, order, kv, group_set.len());
    assert forall|t: int| 0 <= t < c.len() && #[trigger] c[t] implies t < region(gs, group_set).len() && region(gs, group_set)[t] by {
        let j = choose|j: int| 0 <= j < order.len() && #[trigger] first_n(gs[order[j] as int], kv[j] as int)[t];
        let g = gs[order[j] as int];
        lemma_ones_of(g);
        let ones = ones_of(g);
        let lim = if (kv[j] as int) < ones.len() { kv[j] as int } else { ones.len() as int };
        let i = choose|i: int| 0 <= i < lim && #[trigger] ones.take(lim)[i] == t as usize;
        assert(ones[i] == t);
        assert(g[t]);
        assert(gs[order[j] as int][t]);
    }
}

/// The tiles of the groups of `group_set`.
fn region_mask(groups: &Vec<BitSet>, group_set: &BitSet) -> (r: BitSet)
    requires
        group_set.wf(),
        group_set_ok(groups@, group_set@),
    ensures
        r.wf(),
        r@ == region(sets_view(groups@), group_set@),
{
    let ghost gs = sets_view(groups@);
    let n = group_set.len();
    let order = group_set.iter_ones();
    proof {
        crate::bitset::lemma_storage_covers(group_set);
        lemma_ones_of(group_set@);
    }
    let mut out = BitSet::zeros(n);
    let mut j: usize = 0;
    while j < order.len()
        invariant
            gs == sets_view(groups@),
            n == group_set@.len(),
            group_set_ok(groups@, group_set@),
            order@ == ones_of(group_set@),
            forall|k: int| 0 <= k < order@.len() ==> #[trigger] order@[k] < n && group_set@[order@[k] as int],
            out.wf(),
            out@.len() == n,
            j <= order@.len(),
            out@ == groups_union(gs, order@.take(j as int), n as nat),
        decreases order.len() - j,
    {
        let g = order[j];
        let ghost before = out@;
        out.add_assign(&groups[g]);
        proof {
            let u = groups_union(gs, order@.take(j + 1), n as nat);
            assert forall|t: int| 0 <= t < n implies out@[t] == u[t] by {
                if u[t] {
                    let k = choose|k: int| 0 <= k < j + 1 && #[trigger] gs[order@.take(j + 1)[k] as int][t];
                    if k < j {
                        assert(gs[order@.take(j as int)[k] as int][t]);
                    }
                }
                if before[t] {
                    let k = choose|k: int| 0 <= k < j && #[trigger] gs[order@.take(j as int)[k] as int][t];
                    assert(gs[order@.take(j + 1)[k] as int][t]);
                }
                if groups@[g as int]@[t] {
                    assert(gs[order@.take(j + 1)[j as int] as int][t]);
                }
            }
            assert(out@ =~= u);
        }
        j = j + 1;
    }
    assert(order@.take(order@.len() as int) == order@);
    out
}

impl ArrangementSet {
    /// The arrangements of `num` mines on the groups `group_set`: every combination, each once.
    pub fn new(groups: &Vec<BitSet>, group_set: &BitSet, num: usize) -> (r: Self)
        requires
            group_set.wf(),
            group_set_ok(groups@, group_set@),
        ensures
            r.wf_in(group_set@.len(), groups@.len() as nat),
            r.spec_mask() == region(sets_view(groups@), group_set@),
            r.spec_groups() == group_set@,
            forall|k: int| 0 <= k < r.spec_arrangements().len() ==> is_combination(
                #[trigger] r.spec_arrangements()[k],
                sets_view(groups@),
                group_set@,
                num as nat,
            ),
            forall|s: Seq<bool>| #[trigger] is_combination(s, sets_view(groups@), group_set@, num as nat)
                ==> r.spec_arrangements().contains(s),
            r.spec_arrangements().no_duplicates(),
    {
        let ghost gs = sets_view(groups@);
        let mask = region_mask(groups, group_set);
        let arrangements = combinations(groups, group_set, num);
        let r = ArrangementSet { mask, groups: group_set.clone(), arrangements };
        proof {
            let arrs = r.spec_arrangements();
            assert forall|k: int| 0 <= k < r.arrangements@.len() implies (#[trigger] r.arrangements@[k]).wf()
                && r.arrangements@[k]@.len() == group_set@.len() && subset(r.arrangements@[k]@, r.mask@) by {
                lemma_combination_in_region(r.arrangements@[k]@, gs, group_set@, num as nat);
            }
            assert forall|s: Seq<bool>| #[trigger] is_combination(s, gs, group_set@, num as nat) implies arrs.contains(s) by {
                let k = choose|k: int| 0 <= k < r.arrangements@.len() && r.arrangements@[k]@ == s;
                assert(arrs[k] == s);
            }
            assert forall|a: int, b: int| 0 <= a < arrs.len() && 0 <= b < arrs.len() && a != b implies arrs[a] != arrs[b] by {
                if a < b {
                    assert(r.arrangements@[a]@ != r.arrangements@[b]@);
                } else {
                    assert(r.arrangements@[b]@ != r.arrangements@[a]@);
                }
            }
        }
        r
    }
}


// ---------------------------------------------------------------------------------------------
// Adding a hint to an arrangement set

/// The groups of a hint that the set already covers.
pub open spec fn shared_groups(own: Seq<bool>, group_set: Seq<bool>) -> Seq<bool> {
    Seq::new(group_set.len(), |g: int| own[g] && group_set[g])
}

/// The groups of a hint that the set does not cover yet.
pub open spec fn fresh_groups(own: Seq<bool>, group_set: Seq<bool>) -> Seq<bool> {
    Seq::new(group_set.len(), |g: int| group_set[g] && !own[g])
}

/// `a` puts no more than `num` mines on the hint's shared tiles, and leaves no more for its
/// fresh tiles than they can hold.
pub open spec fn fits_hint(a: Seq<bool>, gs: Seq<Seq<bool>>, own: Seq<bool>, group_set: Seq<bool>, num: nat) -> bool {
    let ov = overlap_count(a, region(gs, shared_groups(own, group_set)));
    ov <= num && num <= ov + true_count(region(gs, fresh_groups(own, group_set)))
}

/// The mines of the hint left for its fresh tiles once `a` is placed.
pub open spec fn fresh_mines(a: Seq<bool>, gs: Seq<Seq<bool>>, own: Seq<bool>, group_set: Seq<bool>, num: nat) -> nat {
    (num - overlap_count(a, region(gs, shared_groups(own, group_set)))) as nat
}

/// `x` is an arrangement of `arrs` that fits the hint, completed by a combination of the
/// hint's remaining mines on its fresh groups.
pub open spec fn hint_extension(
    x: Seq<bool>,
    arrs: Seq<Seq<bool>>,
    gs: Seq<Seq<bool>>,
    own: Seq<bool>,
    group_set: Seq<bool>,
    num: nat,
) -> bool {
    exists|a: Seq<bool>, c: Seq<bool>|
        #[trigger] arrs.contains(a) && fits_hint(a, gs, own, group_set, num) && is_combination(
            c,
            gs,
            fresh_groups(own, group_set),
            fresh_mines(a, gs, own, group_set, num),
        ) && x == #[trigger] or_seq(a, c)
}

/// A list holding every combination once, and nothing else, has one entry exactly when there is
/// one combination.
proof fn lemma_unique_iff(combos: Seq<BitSet>, gs: Seq<Seq<bool>>, group_set: Seq<bool>, num: nat)
    requires
        forall|k: int| 0 <= k < combos.len() ==> is_combination((#[trigger] combos[k])@, gs, group_set, num),
        forall|s: Seq<bool>| #[trigger] is_combination(s, gs, group_set, num) ==> exists|k: int| 0 <= k < combos.len() && combos[k]@ == s,
        forall|a: int, b: int| 0 <= a < b < combos.len() ==> combos[a]@ != combos[b]@,
    ensures
        unique_combination(gs, group_set, num) == (combos.len() == 1),
{
    reveal(unique_combination);
    if combos.len() == 1 {
        let c = combos[0]@;
        assert(is_combination(c, gs, group_set, num));
        assert forall|x: Seq<bool>| #[trigger] is_combination(x, gs, group_set, num) implies x == c by {
            let k = choose|k: int| 0 <= k < combos.len() && combos[k]@ == x;
        }
    }
    if unique_combination(gs, group_set, num) {
        let c = choose|c: Seq<bool>| #[trigger] is_combination(c, gs, group_set, num) && forall|x: Seq<bool>|
            #[trigger] is_combination(x, gs, group_set, num) ==> x == c;
        assert(combos.len() >= 1);
        if combos.len() > 1 {
            assert(is_combination(combos[0]@, gs, group_set, num));
            assert(is_combination(combos[1]@, gs, group_set, num));
            assert(combos[0]@ != combos[1]@);
        }
    }
}

/// When each arrangement leaves exactly one combination, `c0`, its extensions are the
/// arrangements joined to `c0`, in order.
proof fn lemma_extensions_single(
    arrs: Seq<Seq<bool>>,
    gs: Seq<Seq<bool>>,
    fresh: Seq<bool>,
    om: Seq<bool>,
    num: nat,
    c0: Seq<bool>,
)
    requires
        forall|k: int| 0 <= k < arrs.len() ==> crate::combinations::combination_list(
            gs,
            fresh,
            (num - overlap_count(#[trigger] arrs[k], om)) as nat,
        ) == seq![c0],
    ensures
        extensions(arrs, gs, fresh, om, num) == Seq::new(arrs.len(), |k: int| or_seq(arrs[k], c0)),
    decreases arrs.len(),
{
    if arrs.len() > 0 {
        let w = arrs.drop_last();
        assert forall|k: int| 0 <= k < w.len() implies crate::combinations::combination_list(
            gs,
            fresh,
            (num - overlap_count(#[trigger] w[k], om)) as nat,
        ) == seq![c0] by {
            assert(w[k] == arrs[k]);
        }
        lemma_extensions_single(w, gs, fresh, om, num, c0);
        assert(arrs[arrs.len() - 1] == arrs.last());
        assert(extensions(arrs, gs, fresh, om, num) =~= Seq::new(arrs.len(), |k: int| or_seq(arrs[k], c0)));
    }
}

/// What `add` gives for a hint of `num` mines on the groups of `group_set`: either the set
/// grown by the hint's fresh groups, holding every completion of the arrangements that fit the
/// hint, or the arrangements that fit the hint, all with the same mines on the shared groups,
/// beside a set of their completions on the fresh groups.
pub open spec fn add_outcome(
    cur0: ArrangementSet,
    cur1: ArrangementSet,
    r: Result<(), ArrangementSet>,
    gs: Seq<Seq<bool>>,
    group_set: Seq<bool>,
    num: nat,
) -> bool {
    match r {
        Ok(()) => {
            &&& cur1.spec_groups() == or_seq(cur0.spec_groups(), group_set)
            &&& forall|x: Seq<bool>| #[trigger] cur1.spec_arrangements().contains(x) <==> hint_extension(
                x,
                cur0.spec_arrangements(),
                gs,
                cur0.spec_groups(),
                group_set,
                num,
            )
        },
        Err(other) => {
            &&& cur1.spec_groups() == cur0.spec_groups()
            &&& forall|x: Seq<bool>| #[trigger] cur1.spec_arrangements().contains(x) <==> cur0.spec_arrangements().contains(x)
                && fits_hint(x, gs, cur0.spec_groups(), group_set, num)
            &&& forall|x: Seq<bool>, y: Seq<bool>|
                #[trigger] cur1.spec_arrangements().contains(x) && #[trigger] cur1.spec_arrangements().contains(y)
                    ==> overlap_count(x, region(gs, shared_groups(cur0.spec_groups(), group_set))) == overlap_count(
                    y,
                    region(gs, shared_groups(cur0.spec_groups(), group_set)),
                )
            &&& other.spec_groups() == fresh_groups(cur0.spec_groups(), group_set)
            &&& forall|x: Seq<bool>| #[trigger] other.spec_arrangements().contains(x) <==> exists|a: Seq<bool>|
                #[trigger] cur1.spec_arrangements().contains(a) && is_combination(
                    x,
                    gs,
                    fresh_groups(cur0.spec_groups(), group_set),
                    fresh_mines(a, gs, cur0.spec_groups(), group_set, num),
                )
        },
    }
}

/// Adding a hint keeps exactly the placements that meet it: a placement matched by the set is
/// matched after the addition (by the set, and by the set split off, if any) exactly when it
/// has the hint's number of mines on the hint's groups.
pub proof fn law_add_meets_hint(
    cur0: ArrangementSet,
    cur1: ArrangementSet,
    r: Result<(), ArrangementSet>,
    gs: Seq<Seq<bool>>,
    group_set: Seq<bool>,
    num: nat,
    p: Seq<bool>,
)
    requires
        cur0.wf_in(group_set.len(), gs.len()),
        on_groups(cur0, gs),
        groups_fit(gs, group_set.len()),
        names_groups(group_set, gs),
        p.len() == group_set.len(),
        add_outcome(cur0, cur1, r, gs, group_set, num),
    ensures
        (has_match(cur0, p, gs) && overlap_count(p, region(gs, group_set)) == num) <==> (has_match(cur1, p, gs) && (
        r matches Err(o) ==> has_match(o, p, gs))),
{
    match r {
        Ok(()) => {
            if has_match(cur0, p, gs) && overlap_count(p, region(gs, group_set)) == num {
                crate::placements::lemma_add_joined(cur0, cur1, gs, group_set, num, p);
            }
            if has_match(cur1, p, gs) {
                crate::placements::lemma_add_joined_back(cur0, cur1, gs, group_set, num, p);
            }
        },
        Err(o) => {
            if has_match(cur0, p, gs) && overlap_count(p, region(gs, group_set)) == num {
                crate::placements::lemma_add_split(cur0, cur1, o, gs, group_set, num, p);
            }
            if has_match(cur1, p, gs) && has_match(o, p, gs) {
                crate::placements::lemma_add_split_back(cur0, cur1, o, gs, group_set, num, p);
            }
        },
    }
}

proof fn lemma_kept_is_hint_kept(
    olds: Seq<Seq<bool>>,
    kept: Seq<Seq<bool>>,
    om: Seq<bool>,
    lo: nat,
    fc: nat,
    gs: Seq<Seq<bool>>,
    own: Seq<bool>,
    group_set: Seq<bool>,
    num: nat,
)
    requires
        kept == olds.filter(|x: Seq<bool>| lo <= overlap_count(x, om) <= num),
        om == region(gs, shared_groups(own, group_set)),
        fc == true_count(region(gs, fresh_groups(own, group_set))),
        lo == if num >= fc { (num - fc) as nat } else { 0 },
    ensures
        kept == hint_kept(olds, gs, own, group_set, num),
{
    let p1 = |x: Seq<bool>| lo <= overlap_count(x, om) <= num;
    let p2 = |x: Seq<bool>| fits_hint(x, gs, own, group_set, num);
    assert(p1 =~= p2);
}

/// The arrangements of `arrs` that fit the hint, in their order.
pub open spec fn hint_kept(arrs: Seq<Seq<bool>>, gs: Seq<Seq<bool>>, own: Seq<bool>, group_set: Seq<bool>, num: nat) -> Seq<Seq<bool>> {
    arrs.filter(|x: Seq<bool>| fits_hint(x, gs, own, group_set, num))
}

/// There is exactly one combination of `num` mines on the groups of `group_set`.
#[verifier::opaque]
pub open spec fn unique_combination(gs: Seq<Seq<bool>>, group_set: Seq<bool>, num: nat) -> bool {
    exists|c: Seq<bool>| #[trigger] is_combination(c, gs, group_set, num) && forall|x: Seq<bool>| #[trigger] is_combination(x, gs, group_set, num) ==> x == c
}

/// When `add` splits the hint off as a set of its own: more than one arrangement fits the hint,
/// they all hold the same tiles of the hint's shared groups, and the mines they leave for the
/// fresh groups can be placed in other than exactly one way.
#[verifier::opaque]
pub open spec fn add_splits(arrs: Seq<Seq<bool>>, gs: Seq<Seq<bool>>, own: Seq<bool>, group_set: Seq<bool>, num: nat) -> bool {
    let kept = hint_kept(arrs, gs, own, group_set, num);
    &&& kept.len() > 1
    &&& forall|k: int| 1 <= k < kept.len() ==> agree_on(#[trigger] kept[k], kept[0], region(gs, shared_groups(own, group_set)))
    &&& !unique_combination(gs, fresh_groups(own, group_set), fresh_mines(kept[0], gs, own, group_set, num))
}

/// The arrangements whose overlap with `mask` lies in `lo..=hi`, in their order.
fn filter_by_overlap(arrs: &Vec<BitSet>, mask: &BitSet, lo: usize, hi: usize) -> (r: Vec<BitSet>)
    requires
        mask.wf(),
        forall|k: int| 0 <= k < arrs@.len() ==> (#[trigger] arrs@[k]).wf() && arrs@[k]@.len() == mask@.len(),
    ensures
        forall|k: int| 0 <= k < r@.len() ==> (#[trigger] r@[k]).wf() && r@[k]@.len() == mask@.len(),
        forall|x: Seq<bool>| #[trigger] sets_view(r@).contains(x) <==> sets_view(arrs@).contains(x)
            && lo <= overlap_count(x, mask@) <= hi,
        sets_view(r@) == sets_view(arrs@).filter(|x: Seq<bool>| lo <= overlap_count(x, mask@) <= hi),
{
    let mut out: Vec<BitSet> = Vec::new();
    let mut k: usize = 0;
    while k < arrs.len()
        invariant
            mask.wf(),
            forall|k: int| 0 <= k < arrs@.len() ==> (#[trigger] arrs@[k]).wf() && arrs@[k]@.len() == mask@.len(),
            k <= arrs@.len(),
            forall|m: int| 0 <= m < out@.len() ==> (#[trigger] out@[m]).wf() && out@[m]@.len() == mask@.len(),
            forall|x: Seq<bool>| #[trigger] sets_view(out@).contains(x) <==> sets_view(arrs@.take(k as int)).contains(x)
                && lo <= overlap_count(x, mask@) <= hi,
            sets_view(out@) == sets_view(arrs@.take(k as int)).filter(|x: Seq<bool>| lo <= overlap_count(x, mask@) <= hi),
        decreases arrs.len() - k,
    {
        let ov = arrs[k].count_overlap_ones(mask);
        let ghost out0 = out@;
        let ghost x0 = arrs@[k as int]@;
        assert(ov == overlap_count(x0, mask@));
        if lo <= ov && ov <= hi {
            out.push(arrs[k].clone());
        }
        proof {
            let pred = |x: Seq<bool>| lo <= overlap_count(x, mask@) <= hi;
            let t0f = sets_view(arrs@.take(k as int));
            let t1f = sets_view(arrs@.take(k + 1));
            assert(t1f =~= t0f.push(x0));
            assert(t1f.drop_last() =~= t0f);
            assert(t1f.filter(pred) == if pred(x0) { t0f.filter(pred).push(x0) } else { t0f.filter(pred) }) by {
                reveal(Seq::filter);
            }
            assert(sets_view(out@) =~= if pred(x0) { sets_view(out0).push(x0) } else { sets_view(out0) });
            assert forall|x: Seq<bool>| #[trigger] sets_view(out@).contains(x) <==> sets_view(arrs@.take(k + 1)).contains(x)
                && lo <= overlap_count(x, mask@) <= hi by {
                let t0 = sets_view(arrs@.take(k as int));
                let t1 = sets_view(arrs@.take(k + 1));
                assert(t1 =~= t0.push(x0));
                assert(sets_view(out@) =~= if lo <= overlap_count(x0, mask@) <= hi {
                    sets_view(out0).push(x0)
                } else {
                    sets_view(out0)
                });
                assert(sets_view(out0).contains(x) <==> t0.contains(x) && lo <= overlap_count(x, mask@) <= hi);
                if t1.contains(x) && x != x0 {
                    let i = choose|i: int| 0 <= i < t1.len() && #[trigger] t1[i] == x;
                    assert(t0[i] == x);
                }
                if t0.contains(x) {
                    let i = choose|i: int| 0 <= i < t0.len() && #[trigger] t0[i] == x;
                    assert(t1[i] == x);
                }
                assert(t1[k as int] == x0);
                if sets_view(out@).contains(x) && x != x0 {
                    let m = choose|m: int| 0 <= m < sets_view(out@).len() && #[trigger] sets_view(out@)[m] == x;
                    assert(sets_view(out0)[m] == x);
                }
                if sets_view(out0).contains(x) {
                    let m = choose|m: int| 0 <= m < sets_view(out0).len() && #[trigger] sets_view(out0)[m] == x;
                    assert(sets_view(out@)[m] == x);
                }
                if lo <= overlap_count(x0, mask@) <= hi {
                    assert(sets_view(out@)[out0.len() as int] == x0);
                }
            }
        }
        k = k + 1;
    }
    assert(arrs@.take(arrs@.len() as int) == arrs@);
    out
}

/// Whether every arrangement after the first agrees with `target` on `mask`.
fn rest_equal_on_mask(arrs: &Vec<BitSet>, target: &BitSet, mask: &BitSet) -> (r: bool)
    requires
        mask.wf(),
        target.wf(),
        target@.len() == mask@.len(),
        forall|k: int| 0 <= k < arrs@.len() ==> (#[trigger] arrs@[k]).wf() && arrs@[k]@.len() == mask@.len(),
    ensures
        r == forall|k: int| 1 <= k < arrs@.len() ==> forall|i: int|
            0 <= i < mask@.len() && #[trigger] mask@[i] ==> (#[trigger] arrs@[k])@[i] == target@[i],
{
    let mut k: usize = 1;
    while k < arrs.len()
        invariant
            mask.wf(),
            target.wf(),
            target@.len() == mask@.len(),
            forall|k: int| 0 <= k < arrs@.len() ==> (#[trigger] arrs@[k]).wf() && arrs@[k]@.len() == mask@.len(),
            1 <= k || arrs@.len() == 0,
            k <= arrs@.len() || arrs@.len() == 0,
            forall|m: int| 1 <= m < k && m < arrs@.len() ==> forall|i: int|
                0 <= i < mask@.len() && #[trigger] mask@[i] ==> (#[trigger] arrs@[m])@[i] == target@[i],
        decreases arrs.len() - k,
    {
        if !arrs[k].equal_on_mask(target, mask) {
            return false;
        }
        k = k + 1;
    }
    true
}

/// Adds `c` to every arrangement.
fn add_to_each(arrs: &mut Vec<BitSet>, c: &BitSet)
    requires
        c.wf(),
        forall|k: int| 0 <= k < old(arrs)@.len() ==> (#[trigger] old(arrs)@[k]).wf() && old(arrs)@[k]@.len() == c@.len(),
    ensures
        final(arrs)@.len() == old(arrs)@.len(),
        forall|k: int| 0 <= k < final(arrs)@.len() ==> (#[trigger] final(arrs)@[k]).wf()
            && final(arrs)@[k]@ == or_seq(old(arrs)@[k]@, c@),
{
    let ghost a0 = arrs@;
    let mut k: usize = 0;
    while k < arrs.len()
        invariant
            c.wf(),
            arrs@.len() == a0.len(),
            k <= a0.len(),
            forall|m: int| 0 <= m < a0.len() ==> (#[trigger] a0[m]).wf() && a0[m]@.len() == c@.len(),
            forall|m: int| 0 <= m < k ==> (#[trigger] arrs@[m]).wf() && arrs@[m]@ == or_seq(a0[m]@, c@),
            forall|m: int| k <= m < a0.len() ==> #[trigger] arrs@[m] == a0[m],
        decreases arrs.len() - k,
    {
        let v = arrs[k].bitor(c);
        arrs.set(k, v);
        assert(arrs@[k as int]@ =~= or_seq(a0[k as int]@, c@));
        k = k + 1;
    }
}


/// `x` is an arrangement `a` of `arrs` completed by a combination of the mines that `a` leaves
/// for the groups `fresh`, `a` having placed its share on the tiles of `om`.
pub open spec fn extension_of(
    x: Seq<bool>,
    arrs: Seq<Seq<bool>>,
    gs: Seq<Seq<bool>>,
    fresh: Seq<bool>,
    om: Seq<bool>,
    num: nat,
) -> bool {
    exists|a: Seq<bool>, c: Seq<bool>|
        #[trigger] arrs.contains(a) && is_combination(c, gs, fresh, (num - overlap_count(a, om)) as nat) && x
            == #[trigger] or_seq(a, c)
}

/// Appends `a | c` for each `c` of `cs`, in order.
fn push_unions(out: &mut Vec<BitSet>, a: &BitSet, cs: &Vec<BitSet>)
    requires
        a.wf(),
        forall|i: int| 0 <= i < cs@.len() ==> (#[trigger] cs@[i]).wf() && cs@[i]@.len() == a@.len(),
    ensures
        final(out)@.len() == old(out)@.len() + cs@.len(),
        forall|m: int| 0 <= m < old(out)@.len() ==> #[trigger] final(out)@[m] == old(out)@[m],
        forall|i: int| 0 <= i < cs@.len() ==> (#[trigger] final(out)@[old(out)@.len() + i]).wf()
            && final(out)@[old(out)@.len() + i]@ == or_seq(a@, cs@[i]@),
{
    let ghost o0 = out@;
    let mut i: usize = 0;
    while i < cs.len()
        invariant
            a.wf(),
            forall|i: int| 0 <= i < cs@.len() ==> (#[trigger] cs@[i]).wf() && cs@[i]@.len() == a@.len(),
            i <= cs@.len(),
            out@.len() == o0.len() + i,
            forall|m: int| 0 <= m < o0.len() ==> #[trigger] out@[m] == o0[m],
            forall|j: int| 0 <= j < i ==> (#[trigger] out@[o0.len() + j]).wf() && out@[o0.len() + j]@ == or_seq(a@, cs@[j]@),
        decreases cs.len() - i,
    {
        let v = a.bitor(&cs[i]);
        let ghost prev = out@;
        out.push(v);
        proof {
            assert(out@[o0.len() + i]@ =~= or_seq(a@, cs@[i as int]@));
            assert forall|j: int| 0 <= j < i + 1 implies (#[trigger] out@[o0.len() + j]).wf()
                && out@[o0.len() + j]@ == or_seq(a@, cs@[j]@) by {
                if j < i {
                    assert(out@[o0.len() + j] == prev[o0.len() + j]);
                }
            }
        }
        i = i + 1;
    }
}

/// Completes each arrangement with every combination of the mines it leaves for the groups
/// `fresh`, the combinations for each number of mines computed once.
/// The arrangements of `arrs`, in order, each joined to every combination of the mines it
/// leaves on the groups of `fresh`, in the order of `combination_list`.
pub open spec fn extensions(arrs: Seq<Seq<bool>>, gs: Seq<Seq<bool>>, fresh: Seq<bool>, om: Seq<bool>, num: nat) -> Seq<Seq<bool>>
    decreases arrs.len(),
{
    if arrs.len() == 0 {
        Seq::empty()
    } else {
        let a = arrs.last();
        let cs = crate::combinations::combination_list(gs, fresh, (num - overlap_count(a, om)) as nat);
        extensions(arrs.drop_last(), gs, fresh, om, num) + Seq::new(cs.len(), |i: int| or_seq(a, cs[i]))
    }
}

fn extend_all(kept: &Vec<BitSet>, groups: &Vec<BitSet>, fresh: &BitSet, om: &BitSet, num: usize) -> (r: Vec<BitSet>)
    requires
        fresh.wf(),
        om.wf(),
        om@.len() == fresh@.len(),
        group_set_ok(groups@, fresh@),
        forall|k: int| 0 <= k < kept@.len() ==> (#[trigger] kept@[k]).wf() && kept@[k]@.len() == fresh@.len()
            && overlap_count(kept@[k]@, om@) <= num,
    ensures
        forall|k: int| 0 <= k < r@.len() ==> (#[trigger] r@[k]).wf() && r@[k]@.len() == fresh@.len(),
        forall|x: Seq<bool>| #[trigger] sets_view(r@).contains(x) <==> extension_of(
            x,
            sets_view(kept@),
            sets_view(groups@),
            fresh@,
            om@,
            num as nat,
        ),
        sets_view(r@) == extensions(sets_view(kept@), sets_view(groups@), fresh@, om@, num as nat),
{
    let ghost gs = sets_view(groups@);
    let ghost n = fresh@.len();
    let mut out: Vec<BitSet> = Vec::new();
    let mut keys: Vec<usize> = Vec::new();
    let mut cache: Vec<Vec<BitSet>> = Vec::new();
    let mut k: usize = 0;
    while k < kept.len()
        invariant
            gs == sets_view(groups@),
            n == fresh@.len(),
            fresh.wf(),
            om.wf(),
            om@.len() == n,
            group_set_ok(groups@, fresh@),
            forall|k: int| 0 <= k < kept@.len() ==> (#[trigger] kept@[k]).wf() && kept@[k]@.len() == n
                && overlap_count(kept@[k]@, om@) <= num,
            k <= kept@.len(),
            keys@.len() == cache@.len(),
            forall|e: int, i: int| 0 <= e < cache@.len() && 0 <= i < cache@[e]@.len() ==> (#[trigger] cache@[e]@[i]).wf()
                && cache@[e]@[i]@.len() == n,
            forall|e: int, c: Seq<bool>| 0 <= e < cache@.len() ==> (#[trigger] sets_view(cache@[e]@).contains(c)
                <==> is_combination(c, gs, fresh@, keys@[e] as nat)),
            forall|e: int| 0 <= e < cache@.len() ==> sets_view(#[trigger] cache@[e]@) == crate::combinations::combination_list(
                gs,
                fresh@,
                keys@[e] as nat,
            ),
            sets_view(out@) == extensions(sets_view(kept@.take(k as int)), gs, fresh@, om@, num as nat),
            forall|m: int| 0 <= m < out@.len() ==> (#[trigger] out@[m]).wf() && out@[m]@.len() == n,
            forall|x: Seq<bool>| #[trigger] sets_view(out@).contains(x) <==> extension_of(
                x,
                sets_view(kept@.take(k as int)),
                gs,
                fresh@,
                om@,
                num as nat,
            ),
        decreases kept.len() - k,
    {
        let a = &kept[k];
        let new_mines = num - a.count_overlap_ones(om);
        let mut e: usize = 0;
        while e < keys.len() && keys[e] != new_mines
            invariant
                e <= keys@.len(),
            decreases keys.len() - e,
        {
            e = e + 1;
        }
        if e == keys.len() {
            let cs = combinations(groups, fresh, new_mines);
            keys.push(new_mines);
            cache.push(cs);
            proof {
                assert forall|e2: int, c: Seq<bool>| 0 <= e2 < cache@.len() implies (#[trigger] sets_view(cache@[e2]@).contains(c)
                    <==> is_combination(c, gs, fresh@, keys@[e2] as nat)) by {
                    if e2 == cache@.len() - 1 {
                        if is_combination(c, gs, fresh@, keys@[e2] as nat) {
                            let i = choose|i: int| 0 <= i < cache@[e2]@.len() && cache@[e2]@[i]@ == c;
                            assert(sets_view(cache@[e2]@)[i] == c);
                        }
                        if sets_view(cache@[e2]@).contains(c) {
                            let i = choose|i: int| 0 <= i < sets_view(cache@[e2]@).len() && #[trigger] sets_view(cache@[e2]@)[i] == c;
                            assert(cache@[e2]@[i]@ == c);
                        }
                    }
                }
            }
        }
        let ghost out0 = out@;
        let ghost xa = a@;
        let ghost cs_view = sets_view(cache@[e as int]@);
        proof {
            assert(new_mines == (num - overlap_count(xa, om@)) as nat);
        }
        push_unions(&mut out, a, &cache[e]);
        proof {
            let t0x = sets_view(kept@.take(k as int));
            let t1x = sets_view(kept@.take(k + 1));
            assert(t1x.drop_last() =~= t0x);
            assert(t1x.last() == xa);
            let csl = crate::combinations::combination_list(gs, fresh@, (num - overlap_count(xa, om@)) as nat);
            assert(cs_view == csl);
            assert(sets_view(out@) =~= extensions(t0x, gs, fresh@, om@, num as nat) + Seq::new(
                csl.len(),
                |i: int| or_seq(xa, csl[i]),
            )) by {
                assert forall|m: int| 0 <= m < out@.len() implies sets_view(out@)[m] == (extensions(t0x, gs, fresh@, om@, num as nat)
                    + Seq::new(csl.len(), |i: int| or_seq(xa, csl[i])))[m] by {
                    if m < out0.len() {
                        assert(sets_view(out0)[m] == out0[m]@);
                    } else {
                        let i = m - out0.len();
                        assert(out@[out0.len() + i]@ == or_seq(xa, cs_view[i]));
                    }
                }
            }
            assert forall|m: int| 0 <= m < out@.len() implies (#[trigger] out@[m]).wf() && out@[m]@.len() == n by {
                if m >= out0.len() {
                    let i = m - out0.len();
                    assert(out@[out0.len() + i]@ == or_seq(xa, cs_view[i]));
                }
            }
            let t0 = sets_view(kept@.take(k as int));
            let t1 = sets_view(kept@.take(k + 1));
            assert(t1 =~= t0.push(xa));
            assert forall|x: Seq<bool>| #[trigger] sets_view(out@).contains(x) <==> extension_of(x, t1, gs, fresh@, om@, num as nat) by {
                if sets_view(out@).contains(x) {
                    let m = choose|m: int| 0 <= m < sets_view(out@).len() && #[trigger] sets_view(out@)[m] == x;
                    if m < out0.len() {
                        assert(sets_view(out0)[m] == x);
                        assert(sets_view(out0).contains(x));
                        let (a2, c2) = choose|a2: Seq<bool>, c2: Seq<bool>| #[trigger] t0.contains(a2) && is_combination(
                            c2, gs, fresh@, (num - overlap_count(a2, om@)) as nat) && x == #[trigger] or_seq(a2, c2);
                        let i = choose|i: int| 0 <= i < t0.len() && t0[i] == a2;
                        assert(t1[i] == a2);
                        assert(t1.contains(a2));
                    } else {
                        let i = m - out0.len();
                        let c = cs_view[i];
                        assert(cs_view.contains(c));
                        assert(out@[out0.len() + i]@ == or_seq(xa, cs_view[i]));
                        assert(t1[k as int] == xa);
                        assert(t1.contains(xa));
                        assert(x == or_seq(xa, c));
                    }
                }
                if extension_of(x, t1, gs, fresh@, om@, num as nat) {
                    let (a2, c2) = choose|a2: Seq<bool>, c2: Seq<bool>| #[trigger] t1.contains(a2) && is_combination(
                        c2, gs, fresh@, (num - overlap_count(a2, om@)) as nat) && x == #[trigger] or_seq(a2, c2);
                    let i = choose|i: int| 0 <= i < t1.len() && t1[i] == a2;
                    if i < k {
                        assert(t0[i] == a2);
                        assert(t0.contains(a2));
                        assert(extension_of(x, t0, gs, fresh@, om@, num as nat));
                        assert(sets_view(out0).contains(x));
                        let m = choose|m: int| 0 <= m < sets_view(out0).len() && #[trigger] sets_view(out0)[m] == x;
                        assert(sets_view(out@)[m] == x);
                    } else {
                        assert(a2 == xa);
                        assert(cs_view.contains(c2));
                        let j = choose|j: int| 0 <= j < cs_view.len() && #[trigger] cs_view[j] == c2;
                        assert(sets_view(out@)[out0.len() + j] == x);
                    }
                }
            }
        }
        k = k + 1;
    }
    assert(kept@.take(kept@.len() as int) == kept@);
    out
}


/// An arrangement completed on the hint's fresh groups lies on the set's tiles and the hint's.
proof fn lemma_extension_in_region(
    x: Seq<bool>,
    olds: Seq<Seq<bool>>,
    mask: Seq<bool>,
    gs: Seq<Seq<bool>>,
    own: Seq<bool>,
    group_set: Seq<bool>,
    num: nat,
)
    requires
        hint_extension(x, olds, gs, own, group_set, num),
        forall|k: int| 0 <= k < olds.len() ==> (#[trigger] olds[k]).len() == mask.len() && subset(olds[k], mask),
        mask.len() == group_set.len(),
        own.len() == group_set.len(),
        forall|g: int| 0 <= g < gs.len() ==> (#[trigger] gs[g]).len() == group_set.len(),
        forall|g: int| 0 <= g < group_set.len() && #[trigger] group_set[g] ==> g < gs.len(),
        group_set.len() <= usize::MAX,
    ensures
        x.len() == mask.len(),
        subset(x, or_seq(mask, region(gs, fresh_groups(own, group_set)))),
{
    let fresh = fresh_groups(own, group_set);
    let (a, c) = choose|a: Seq<bool>, c: Seq<bool>|
        #[trigger] olds.contains(a) && fits_hint(a, gs, own, group_set, num) && is_combination(
            c,
            gs,
            fresh,
            fresh_mines(a, gs, own, group_set, num),
        ) && x == #[trigger] or_seq(a, c);
    let k = choose|k: int| 0 <= k < olds.len() && olds[k] == a;
    assert(subset(olds[k], mask));
    lemma_combination_in_region(c, gs, fresh, fresh_mines(a, gs, own, group_set, num));
}

impl ArrangementSet {
    /// Adds the constraint of a hint: `num` mines on the groups `group_set`. Arrangements that
    /// cannot meet it are dropped, and each remaining one is completed on the hint's fresh groups
    /// in every possible way, in order (`extensions`). When the remaining arrangements all agree on the hint's shared
    /// tiles and the completions are not unique, the completions are returned as a set of their
    /// own (`Err`) and the set keeps only the remaining arrangements, unless it has just one,
    /// which is then added to each completion.
    #[verifier::spinoff_prover]
    #[verifier::rlimit(100)]
    fn add(&mut self, groups: &Vec<BitSet>, group_set: &BitSet, num: usize) -> (r: Result<(), Self>)
        requires
            old(self).wf_in(group_set@.len(), groups@.len() as nat),
            group_set.wf(),
            group_set_ok(groups@, group_set@),
        ensures
            final(self).wf_in(group_set@.len(), groups@.len() as nat),
            (r is Err) == add_splits(old(self).spec_arrangements(), sets_view(groups@), old(self).spec_groups(), group_set@, num as nat),
            add_outcome(*old(self), *final(self), r, sets_view(groups@), group_set@, num as nat),
            r is Err ==> final(self).spec_arrangements() == hint_kept(
                old(self).spec_arrangements(),
                sets_view(groups@),
                old(self).spec_groups(),
                group_set@,
                num as nat,
            ),
            r matches Err(other) ==> final(self).spec_arrangements().len() > 0 && other.spec_arrangements()
                == crate::combinations::combination_list(
                sets_view(groups@),
                fresh_groups(old(self).spec_groups(), group_set@),
                fresh_mines(final(self).spec_arrangements()[0], sets_view(groups@), old(self).spec_groups(), group_set@, num as nat),
            ),
            match r {
                Ok(()) => {
                    &&& final(self).spec_mask() == or_seq(
                        old(self).spec_mask(),
                        region(sets_view(groups@), fresh_groups(old(self).spec_groups(), group_set@)),
                    )
                    &&& final(self).spec_groups() == or_seq(old(self).spec_groups(), group_set@)
                    &&& forall|x: Seq<bool>| #[trigger] final(self).spec_arrangements().contains(x) <==> hint_extension(
                        x,
                        old(self).spec_arrangements(),
                        sets_view(groups@),
                        old(self).spec_groups(),
                        group_set@,
                        num as nat,
                    )
                    &&& final(self).spec_arrangements() == extensions(
                        hint_kept(old(self).spec_arrangements(), sets_view(groups@), old(self).spec_groups(), group_set@, num as nat),
                        sets_view(groups@),
                        fresh_groups(old(self).spec_groups(), group_set@),
                        region(sets_view(groups@), shared_groups(old(self).spec_groups(), group_set@)),
                        num as nat,
                    )
                },
                Err(other) => {
                    &&& final(self).spec_mask() == old(self).spec_mask()
                    &&& final(self).spec_groups() == old(self).spec_groups()
                    &&& forall|x: Seq<bool>| #[trigger] final(self).spec_arrangements().contains(x) <==> old(
                        self,
                    ).spec_arrangements().contains(x) && fits_hint(
                        x,
                        sets_view(groups@),
                        old(self).spec_groups(),
                        group_set@,
                        num as nat,
                    )
                    &&& forall|x: Seq<bool>, y: Seq<bool>|
                        #[trigger] final(self).spec_arrangements().contains(x)
                            && #[trigger] final(self).spec_arrangements().contains(y) ==> overlap_count(
                            x,
                            region(sets_view(groups@), shared_groups(old(self).spec_groups(), group_set@)),
                        ) == overlap_count(y, region(sets_view(groups@), shared_groups(old(self).spec_groups(), group_set@)))
                    &&& other.wf_in(group_set@.len(), groups@.len() as nat)
                    &&& other.spec_mask() == region(sets_view(groups@), fresh_groups(old(self).spec_groups(), group_set@))
                    &&& other.spec_groups() == fresh_groups(old(self).spec_groups(), group_set@)
                    &&& forall|x: Seq<bool>| #[trigger] other.spec_arrangements().contains(x) <==> exists|a: Seq<bool>|
                        #[trigger] final(self).spec_arrangements().contains(a) && is_combination(
                            x,
                            sets_view(groups@),
                            fresh_groups(old(self).spec_groups(), group_set@),
                            fresh_mines(a, sets_view(groups@), old(self).spec_groups(), group_set@, num as nat),
                        )
                },
            },
    {
        let ghost gs = sets_view(groups@);
        let ghost own = self.groups@;
        let ghost n = group_set@.len();
        let ghost olds = self.spec_arrangements();
        let ghost mask0 = self.mask@;
        let ghost shared = shared_groups(own, group_set@);
        let ghost fresh = fresh_groups(own, group_set@);
        let overlap_group_set = self.groups.bitand(group_set);
        let new_group_set = group_set.sub(&self.groups);
        proof {
            assert(overlap_group_set@ =~= shared);
            assert(new_group_set@ =~= fresh);
        }
        let overlap_mask = region_mask(groups, &overlap_group_set);
        let new_mask = region_mask(groups, &new_group_set);
        let fresh_count = new_mask.count_ones();
        let min_overlap = num.saturating_sub(fresh_count);
        let kept = filter_by_overlap(&self.arrangements, &overlap_mask, min_overlap, num);
        proof {
            assert forall|x: Seq<bool>| #[trigger] sets_view(kept@).contains(x) <==> olds.contains(x) && fits_hint(
                x, gs, own, group_set@, num as nat) by {}
            assert forall|k: int| 0 <= k < kept@.len() implies subset(#[trigger] kept@[k]@, mask0) by {
                assert(sets_view(kept@)[k] == kept@[k]@);
                assert(sets_view(kept@).contains(kept@[k]@));
                let i = choose|i: int| 0 <= i < olds.len() && olds[i] == kept@[k]@;
                assert(olds[i] == self.arrangements@[i]@);
            }
            assert forall|k: int| 0 <= k < olds.len() implies (#[trigger] olds[k]).len() == mask0.len() && subset(olds[k], mask0) by {
                assert(olds[k] == self.arrangements@[k]@);
            }
            lemma_kept_is_hint_kept(olds, sets_view(kept@), overlap_mask@, min_overlap as nat, fresh_count as nat, gs, own, group_set@, num as nat);
        }
        let ghost kv = sets_view(kept@);
        if kept.len() == 0 {
            self.arrangements = kept;
            self.mask.add_assign(&new_mask);
            self.groups.add_assign(&new_group_set);
            proof {
                assert(self.groups@ =~= or_seq(own, group_set@));
                assert(self.mask@ =~= or_seq(mask0, region(gs, fresh)));
                assert forall|x: Seq<bool>| #[trigger] self.spec_arrangements().contains(x) <==> hint_extension(
                    x, olds, gs, own, group_set@, num as nat) by {
                    if hint_extension(x, olds, gs, own, group_set@, num as nat) {
                        let (a, c) = choose|a: Seq<bool>, c: Seq<bool>|
                            #[trigger] olds.contains(a) && fits_hint(a, gs, own, group_set@, num as nat) && is_combination(
                                c, gs, fresh, fresh_mines(a, gs, own, group_set@, num as nat)) && x == #[trigger] or_seq(a, c);
                        assert(sets_view(kept@).contains(a));
                    }
                }
            }
            proof {
                assert(!add_splits(olds, gs, own, group_set@, num as nat)) by {
                    reveal(add_splits);
                }
                assert(kv.len() == 0);
                assert(self.spec_arrangements() =~= extensions(kv, gs, fresh, region(gs, shared), num as nat));
            }
            return Ok(());
        }
        let overlap_arrangement = kept[0].bitand(&overlap_mask);
        if rest_equal_on_mask(&kept, &overlap_arrangement, &overlap_mask) {
            let oc = overlap_arrangement.count_ones();
            let ghost a0 = kept@[0]@;
            proof {
                assert(overlap_arrangement@ =~= Seq::new(a0.len(), |i: int| a0[i] && overlap_mask@[i]));
                assert(sets_view(kept@)[0] == a0);
                assert(sets_view(kept@).contains(a0));
                // every kept arrangement leaves the same number of mines for the fresh groups
                assert forall|x: Seq<bool>| #[trigger] sets_view(kept@).contains(x) implies overlap_count(x, overlap_mask@) == oc by {
                    let k = choose|k: int| 0 <= k < sets_view(kept@).len() && sets_view(kept@)[k] == x;
                    if k > 0 {
                        assert(Seq::new(x.len(), |i: int| x[i] && overlap_mask@[i]) =~= Seq::new(
                            a0.len(), |i: int| a0[i] && overlap_mask@[i])) by {
                            assert forall|i: int| 0 <= i < x.len() && overlap_mask@[i] implies x[i] == overlap_arrangement@[i] by {
                                assert(kept@[k]@ == x);
                            }
                        }
                    }
                }
            }
            let new_mines = num - oc;
            let mut new_arrangements = combinations(groups, &new_group_set, new_mines);
            proof {
                lemma_unique_iff(new_arrangements@, gs, fresh, new_mines as nat);
                assert(kv[0] == a0);
                assert(fresh_mines(a0, gs, own, group_set@, num as nat) == new_mines) by {
                    assert(overlap_count(a0, overlap_mask@) == oc);
                }
                assert forall|k: int| 1 <= k < kv.len() implies agree_on(#[trigger] kv[k], kv[0], region(gs, shared)) by {
                    assert(kv[k] == kept@[k]@);
                    assert forall|i: int| 0 <= i < n && region(gs, shared)[i] implies kv[k][i] == kv[0][i] by {
                        assert(overlap_mask@[i]);
                        assert(kept@[k]@[i] == overlap_arrangement@[i]);
                    }
                }
            }
            let mut kept = kept;
            let ghost kept0 = kept@;
            let ghost combos = new_arrangements@;
            let ghost swapped = kept.len() == 1 && new_arrangements.len() != 1;
            if kept.len() == 1 && new_arrangements.len() != 1 {
                std::mem::swap(&mut kept, &mut new_arrangements);
            }
            proof {
                assert forall|c: Seq<bool>| #[trigger] is_combination(c, gs, fresh, new_mines as nat) implies
                    c.len() == n && subset(c, new_mask@) by {
                    lemma_combination_in_region(c, gs, fresh, new_mines as nat);
                }
                assert forall|k: int| 0 <= k < combos.len() implies (#[trigger] combos[k]).wf() && combos[k]@.len() == n
                    && subset(combos[k]@, new_mask@) by {
                    lemma_combination_in_region(combos[k]@, gs, fresh, new_mines as nat);
                }
            }
            if new_arrangements.len() != 1 {
                self.arrangements = kept;
                proof {
                    assert(!swapped);
                    assert forall|x: Seq<bool>| #[trigger] sets_view(combos).contains(x) <==> exists|a: Seq<bool>|
                        #[trigger] sets_view(kept0).contains(a) && is_combination(
                            x, gs, fresh, fresh_mines(a, gs, own, group_set@, num as nat)) by {
                        if sets_view(combos).contains(x) {
                            let k = choose|k: int| 0 <= k < sets_view(combos).len() && sets_view(combos)[k] == x;
                            assert(combos[k]@ == x);
                            assert(sets_view(kept0).contains(a0));
                        }
                        if exists|a: Seq<bool>| #[trigger] sets_view(kept0).contains(a) && is_combination(
                            x, gs, fresh, fresh_mines(a, gs, own, group_set@, num as nat)) {
                            let a = choose|a: Seq<bool>| #[trigger] sets_view(kept0).contains(a) && is_combination(
                                x, gs, fresh, fresh_mines(a, gs, own, group_set@, num as nat));
                            assert(overlap_count(a, overlap_mask@) == oc);
                            let k = choose|k: int| 0 <= k < combos.len() && combos[k]@ == x;
                            assert(sets_view(combos)[k] == x);
                        }
                    }
                }
                let other = ArrangementSet { mask: new_mask, groups: new_group_set, arrangements: new_arrangements };
                proof {
                    assert(other.spec_mask() == region(gs, fresh));
                    assert(other.spec_groups() == fresh);
                    assert(other.spec_arrangements() == sets_view(combos));
                    assert(other.wf_in(n, groups@.len() as nat));
                    assert(self.wf_in(n, groups@.len() as nat));
                    assert(self.spec_arrangements() == sets_view(kept0));
                }
                proof {
                    assert(add_splits(olds, gs, own, group_set@, num as nat)) by {
                        reveal(add_splits);
                    }
                    assert(sets_view(kept0) == kv);
                    assert(kv[0] == a0);
                    assert(sets_view(combos) == crate::combinations::combination_list(gs, fresh, new_mines as nat));
                }
                return Err(other);
            }
            let new_arrangement = new_arrangements.pop().unwrap();
            add_to_each(&mut kept, &new_arrangement);
            self.arrangements = kept;
            self.mask.add_assign(&new_mask);
            self.groups.add_assign(&new_group_set);
            proof {
                assert(self.groups@ =~= or_seq(own, group_set@));
                assert(self.mask@ =~= or_seq(mask0, region(gs, fresh)));
                let fin = self.spec_arrangements();
                if swapped {
                    // the single kept arrangement joined to every completion
                    assert(new_arrangement == kept0[0]);
                    assert forall|x: Seq<bool>| #[trigger] fin.contains(x) <==> hint_extension(
                        x, olds, gs, own, group_set@, num as nat) by {
                        if fin.contains(x) {
                            let k = choose|k: int| 0 <= k < fin.len() && fin[k] == x;
                            assert(x == or_seq(combos[k]@, a0));
                            assert(or_seq(combos[k]@, a0) =~= or_seq(a0, combos[k]@));
                            assert(sets_view(combos)[k] == combos[k]@);
                            assert(sets_view(combos).contains(combos[k]@));
                            assert(is_combination(combos[k]@, gs, fresh, fresh_mines(a0, gs, own, group_set@, num as nat)));
                            assert(olds.contains(a0));
                        }
                        if hint_extension(x, olds, gs, own, group_set@, num as nat) {
                            let (a, c) = choose|a: Seq<bool>, c: Seq<bool>|
                                #[trigger] olds.contains(a) && fits_hint(a, gs, own, group_set@, num as nat) && is_combination(
                                    c, gs, fresh, fresh_mines(a, gs, own, group_set@, num as nat)) && x == #[trigger] or_seq(a, c);
                            assert(sets_view(kept0).contains(a));
                            let i = choose|i: int| 0 <= i < sets_view(kept0).len() && sets_view(kept0)[i] == a;
                            assert(a == a0);
                            assert(overlap_count(a, overlap_mask@) == oc);
                            let k = choose|k: int| 0 <= k < combos.len() && combos[k]@ == c;
                            assert(or_seq(combos[k]@, a0) =~= or_seq(a0, combos[k]@));
                            assert(fin[k] == x);
                        }
                    }
                    assert forall|k: int| 0 <= k < self.arrangements@.len() implies (#[trigger] self.arrangements@[k]).wf()
                        && self.arrangements@[k]@.len() == n && subset(self.arrangements@[k]@, self.mask@) by {
                        assert(subset(combos[k]@, new_mask@));
                    }
                } else {
                    let c0 = combos[0]@;
                    assert(new_arrangement@ == c0);
                    assert(sets_view(combos)[0] == c0);
                    assert forall|c: Seq<bool>| #[trigger] is_combination(c, gs, fresh, new_mines as nat) implies c == c0 by {
                        let k = choose|k: int| 0 <= k < combos.len() && combos[k]@ == c;
                    }
                    assert(is_combination(c0, gs, fresh, new_mines as nat)) by {
                        assert(sets_view(combos).contains(c0));
                    }
                    assert forall|x: Seq<bool>| #[trigger] fin.contains(x) <==> hint_extension(
                        x, olds, gs, own, group_set@, num as nat) by {
                        if fin.contains(x) {
                            let k = choose|k: int| 0 <= k < fin.len() && fin[k] == x;
                            let a = kept0[k]@;
                            assert(sets_view(kept0)[k] == a);
                            assert(sets_view(kept0).contains(a));
                            assert(overlap_count(a, overlap_mask@) == oc);
                            assert(x == or_seq(a, c0));
                        }
                        if hint_extension(x, olds, gs, own, group_set@, num as nat) {
                            let (a, c) = choose|a: Seq<bool>, c: Seq<bool>|
                                #[trigger] olds.contains(a) && fits_hint(a, gs, own, group_set@, num as nat) && is_combination(
                                    c, gs, fresh, fresh_mines(a, gs, own, group_set@, num as nat)) && x == #[trigger] or_seq(a, c);
                            assert(sets_view(kept0).contains(a));
                            assert(overlap_count(a, overlap_mask@) == oc);
                            let i = choose|i: int| 0 <= i < sets_view(kept0).len() && sets_view(kept0)[i] == a;
                            assert(fin[i] == x);
                        }
                    }
                    assert forall|k: int| 0 <= k < self.arrangements@.len() implies (#[trigger] self.arrangements@[k]).wf()
                        && self.arrangements@[k]@.len() == n && subset(self.arrangements@[k]@, self.mask@) by {
                        assert(subset(kept0[k]@, mask0));
                    }
                }
            }
            proof {
                // the list, in order
                let om = region(gs, shared);
                assert(overlap_mask@ == om);
                assert(kv == hint_kept(olds, gs, own, group_set@, num as nat));
                let cl = crate::combinations::combination_list(gs, fresh, new_mines as nat);
                assert(sets_view(combos) == cl);
                assert forall|k: int| 0 <= k < kv.len() implies crate::combinations::combination_list(
                    gs,
                    fresh,
                    (num - overlap_count(#[trigger] kv[k], om)) as nat,
                ) == cl by {
                    assert(kv.contains(kv[k]));
                    assert(overlap_count(kv[k], overlap_mask@) == oc);
                }
                let fin = self.spec_arrangements();
                if swapped {
                    assert(kv.len() == 1);
                    assert(kv[0] == a0);
                    assert(kv.drop_last() =~= Seq::<Seq<bool>>::empty());
                    assert(kv.last() == kv[0]);
                    assert(extensions(kv.drop_last(), gs, fresh, om, num as nat) == Seq::<Seq<bool>>::empty());
                    assert(crate::combinations::combination_list(gs, fresh, (num - overlap_count(kv.last(), om)) as nat) == cl);
                    let ex = Seq::new(cl.len(), |i: int| or_seq(a0, cl[i]));
                    assert(extensions(kv, gs, fresh, om, num as nat) =~= ex);
                    assert(fin.len() == combos.len());
                    assert(fin =~= ex) by {
                        assert forall|i: int| 0 <= i < fin.len() implies fin[i] == or_seq(a0, cl[i]) by {
                            assert(sets_view(combos)[i] == combos[i]@);
                            assert(or_seq(combos[i]@, a0) =~= or_seq(a0, combos[i]@));
                        }
                    }
                } else {
                    let c0 = combos[0]@;
                    assert(cl =~= seq![c0]) by {
                        assert(sets_view(combos)[0] == c0);
                    }
                    lemma_extensions_single(kv, gs, fresh, om, num as nat, c0);
                    assert(fin =~= extensions(kv, gs, fresh, om, num as nat)) by {
                        assert forall|k: int| 0 <= k < fin.len() implies fin[k] == or_seq(kv[k], c0) by {
                            assert(kv[k] == kept0[k]@);
                        }
                    }
                }
            }
            proof {
                assert(!add_splits(olds, gs, own, group_set@, num as nat)) by {
                    reveal(add_splits);
                }
            }
            return Ok(());
        }
        proof {
            assert forall|k: int| 0 <= k < kept@.len() implies (#[trigger] kept@[k]).wf() && kept@[k]@.len() == n
                && overlap_count(kept@[k]@, overlap_mask@) <= num by {
                assert(sets_view(kept@)[k] == kept@[k]@);
                assert(sets_view(kept@).contains(kept@[k]@));
            }
        }
        proof {
            assert(!add_splits(olds, gs, own, group_set@, num as nat)) by {
                reveal(add_splits);
                let k = choose|k: int| 1 <= k < kept@.len() && !(forall|i: int|
                    0 <= i < overlap_mask@.len() && #[trigger] overlap_mask@[i] ==> (#[trigger] kept@[k])@[i] == overlap_arrangement@[i]);
                let i = choose|i: int| 0 <= i < overlap_mask@.len() && #[trigger] overlap_mask@[i] && kept@[k]@[i] != overlap_arrangement@[i];
                assert(kv[k] == kept@[k]@);
                assert(kv[0] == kept@[0]@);
                assert(!agree_on(kv[k], kv[0], region(gs, shared)));
            }
        }
        let new_arrangements = extend_all(&kept, groups, &new_group_set, &overlap_mask, num);
        proof {
            assert(overlap_mask@ == region(gs, shared));
            assert(kv == hint_kept(olds, gs, own, group_set@, num as nat));
        }
        self.arrangements = new_arrangements;
        self.mask.add_assign(&new_mask);
        self.groups.add_assign(&new_group_set);
        proof {
            assert(self.groups@ =~= or_seq(own, group_set@));
            assert(self.mask@ =~= or_seq(mask0, region(gs, fresh)));
            let fin = self.spec_arrangements();
            assert forall|x: Seq<bool>| #[trigger] fin.contains(x) <==> hint_extension(
                x, olds, gs, own, group_set@, num as nat) by {
                if fin.contains(x) {
                    assert(extension_of(x, sets_view(kept@), gs, fresh, overlap_mask@, num as nat));
                    let (a, c) = choose|a: Seq<bool>, c: Seq<bool>|
                        #[trigger] sets_view(kept@).contains(a) && is_combination(c, gs, fresh,
                            (num - overlap_count(a, overlap_mask@)) as nat) && x == #[trigger] or_seq(a, c);
                    assert(olds.contains(a));
                }
                if hint_extension(x, olds, gs, own, group_set@, num as nat) {
                    let (a, c) = choose|a: Seq<bool>, c: Seq<bool>|
                        #[trigger] olds.contains(a) && fits_hint(a, gs, own, group_set@, num as nat) && is_combination(
                            c, gs, fresh, fresh_mines(a, gs, own, group_set@, num as nat)) && x == #[trigger] or_seq(a, c);
                    assert(sets_view(kept@).contains(a));
                    assert(extension_of(x, sets_view(kept@), gs, fresh, overlap_mask@, num as nat));
                }
            }
            assert forall|k: int| 0 <= k < self.arrangements@.len() implies (#[trigger] self.arrangements@[k]).wf()
                && self.arrangements@[k]@.len() == n && subset(self.arrangements@[k]@, self.mask@) by {
                let x = self.arrangements@[k]@;
                assert(fin[k] == x);
                assert(fin.contains(x));
                lemma_extension_in_region(x, olds, mask0, gs, own, group_set@, num as nat);
            }
        }
        Ok(())
    }
}


// ---------------------------------------------------------------------------------------------
// Merging arrangement sets

/// Positions of `a` not in `b`.
pub open spec fn minus_seq(a: Seq<bool>, b: Seq<bool>) -> Seq<bool> {
    Seq::new(a.len(), |i: int| a[i] && !b[i])
}

/// `a` and `b` agree on every position of `m`.
pub open spec fn agree_on(a: Seq<bool>, b: Seq<bool>, m: Seq<bool>) -> bool {
    forall|i: int| 0 <= i < m.len() && #[trigger] m[i] ==> a[i] == b[i]
}

/// A strictly smaller subset has fewer elements.
pub(crate) proof fn lemma_true_count_strict(a: Seq<bool>, b: Seq<bool>, t: int)
    requires
        a.len() == b.len(),
        forall|i: int| 0 <= i < a.len() && #[trigger] a[i] ==> b[i],
        0 <= t < a.len(),
        b[t],
        !a[t],
    ensures
        true_count(a) < true_count(b),
    decreases a.len(),
{
    if t == a.len() - 1 {
        lemma_true_count_subset(a.drop_last(), b.drop_last());
    } else {
        lemma_true_count_strict(a.drop_last(), b.drop_last(), t);
    }
}

/// The arrangements that agree with `target` on `mask`, in their order.
fn filter_equal_on_mask(arrs: &Vec<BitSet>, target: &BitSet, mask: &BitSet) -> (r: Vec<BitSet>)
    requires
        mask.wf(),
        target.wf(),
        target@.len() == mask@.len(),
        forall|k: int| 0 <= k < arrs@.len() ==> (#[trigger] arrs@[k]).wf() && arrs@[k]@.len() == mask@.len(),
    ensures
        forall|k: int| 0 <= k < r@.len() ==> (#[trigger] r@[k]).wf() && r@[k]@.len() == mask@.len(),
        forall|x: Seq<bool>| #[trigger] sets_view(r@).contains(x) <==> sets_view(arrs@).contains(x)
            && agree_on(x, target@, mask@),
{
    let mut out: Vec<BitSet> = Vec::new();
    let mut k: usize = 0;
    while k < arrs.len()
        invariant
            mask.wf(),
            target.wf(),
            target@.len() == mask@.len(),
            forall|k: int| 0 <= k < arrs@.len() ==> (#[trigger] arrs@[k]).wf() && arrs@[k]@.len() == mask@.len(),
            k <= arrs@.len(),
            forall|m: int| 0 <= m < out@.len() ==> (#[trigger] out@[m]).wf() && out@[m]@.len() == mask@.len(),
            forall|x: Seq<bool>| #[trigger] sets_view(out@).contains(x) <==> sets_view(arrs@.take(k as int)).contains(x)
                && agree_on(x, target@, mask@),
        decreases arrs.len() - k,
    {
        let keep = arrs[k].equal_on_mask(target, mask);
        let ghost out0 = out@;
        let ghost x0 = arrs@[k as int]@;
        assert(keep == agree_on(x0, target@, mask@));
        if keep {
            out.push(arrs[k].clone());
        }
        proof {
            assert forall|x: Seq<bool>| #[trigger] sets_view(out@).contains(x) <==> sets_view(arrs@.take(k + 1)).contains(x)
                && agree_on(x, target@, mask@) by {
                let t0 = sets_view(arrs@.take(k as int));
                let t1 = sets_view(arrs@.take(k + 1));
                assert(t1 =~= t0.push(x0));
                assert(sets_view(out@) =~= if keep { sets_view(out0).push(x0) } else { sets_view(out0) });
                assert(sets_view(out0).contains(x) <==> t0.contains(x) && agree_on(x, target@, mask@));
                if t1.contains(x) && x != x0 {
                    let i = choose|i: int| 0 <= i < t1.len() && #[trigger] t1[i] == x;
                    assert(t0[i] == x);
                }
                if t0.contains(x) {
                    let i = choose|i: int| 0 <= i < t0.len() && #[trigger] t0[i] == x;
                    assert(t1[i] == x);
                }
                assert(t1[k as int] == x0);
                if sets_view(out@).contains(x) && x != x0 {
                    let m = choose|m: int| 0 <= m < sets_view(out@).len() && #[trigger] sets_view(out@)[m] == x;
                    assert(sets_view(out0)[m] == x);
                }
                if sets_view(out0).contains(x) {
                    let m = choose|m: int| 0 <= m < sets_view(out0).len() && #[trigger] sets_view(out0)[m] == x;
                    assert(sets_view(out@)[m] == x);
                }
                if keep {
                    assert(sets_view(out@)[out0.len() as int] == x0);
                }
            }
        }
        k = k + 1;
    }
    assert(arrs@.take(arrs@.len() as int) == arrs@);
    out
}

/// `x` joins an arrangement of `a` and one of `b` that agree on `ov`.
pub open spec fn joined_pair(x: Seq<bool>, a: Seq<BitSet>, b: Seq<BitSet>, ov: Seq<bool>) -> bool {
    exists|i: int, j: int|
        0 <= i < a.len() && 0 <= j < b.len() && agree_on(a[i]@, b[j]@, ov) && x == #[trigger] or_seq(a[i]@, b[j]@)
}

/// What the two comparisons at the start of a merge did: `other1` is `other0` cut down by
/// `self0` when all of `self0`'s arrangements agree on `ov0`, and (when the second comparison
/// ran) `self1` is `self0` cut down by `other1` when all of `other1`'s arrangements agree on
/// `ov1`. A placement matched by `self1` and `other1` is then matched by `self0` and `other0`.
proof fn lemma_merge_restores(
    self0: ArrangementSet,
    other0: ArrangementSet,
    other1: ArrangementSet,
    self1: ArrangementSet,
    ov0: Seq<bool>,
    ov1: Seq<bool>,
    second: bool,
    gs: Seq<Seq<bool>>,
    p: Seq<bool>,
)
    requires
        self0.wf_in(self0.spec_mask().len(), gs.len()),
        other0.wf_in(self0.spec_mask().len(), gs.len()),
        other1.wf_in(self0.spec_mask().len(), gs.len()),
        self1.wf_in(self0.spec_mask().len(), gs.len()),
        groups_fit(gs, self0.spec_mask().len()),
        on_groups(self0, gs),
        on_groups(other0, gs),
        on_groups(other1, gs),
        ov0.len() == self0.spec_mask().len(),
        ov1.len() == self0.spec_mask().len(),
        forall|t: int| 0 <= t < ov0.len() ==> #[trigger] ov0[t] == (self0.spec_mask()[t] && other0.spec_mask()[t]),
        p.len() == self0.spec_mask().len(),
        has_match(self1, p, gs),
        has_match(other1, p, gs),
        ({
            let arrs = self0.spec_arrangements();
            let e = arrs.len() > 0 && forall|k: int| 1 <= k < arrs.len() ==> agree_on(#[trigger] arrs[k], arrs[0], ov0);
            &&& !e ==> other1 == other0 && ov1 == ov0
            &&& e ==> {
                &&& other1.spec_mask() == minus_seq(other0.spec_mask(), self0.spec_mask())
                &&& other1.spec_groups() == minus_seq(other0.spec_groups(), self0.spec_groups())
                &&& forall|x: Seq<bool>| #[trigger] other1.spec_arrangements().contains(x) <==> exists|a: Seq<bool>|
                    #[trigger] other0.spec_arrangements().contains(a) && agree_on(a, arrs[0], ov0) && x == minus_seq(
                        a,
                        self0.spec_mask(),
                    )
            }
        }),
        ({
            let arrs = other1.spec_arrangements();
            let e2 = arrs.len() > 0 && forall|k: int| 1 <= k < arrs.len() ==> agree_on(#[trigger] arrs[k], arrs[0], ov1);
            &&& !(second && e2) ==> self1 == self0
            &&& second && e2 ==> {
                &&& self1.spec_mask() == minus_seq(self0.spec_mask(), other1.spec_mask())
                &&& self1.spec_groups() == minus_seq(self0.spec_groups(), other1.spec_groups())
                &&& forall|x: Seq<bool>| #[trigger] self1.spec_arrangements().contains(x) <==> exists|a: Seq<bool>|
                    #[trigger] self0.spec_arrangements().contains(a) && agree_on(a, arrs[0], ov1) && x == minus_seq(
                        a,
                        other1.spec_mask(),
                    )
            }
        }),
    ensures
        has_match(self0, p, gs),
        has_match(other0, p, gs),
{
    let n = self0.spec_mask().len();
    let arrs0 = self0.spec_arrangements();
    let e = arrs0.len() > 0 && forall|k: int| 1 <= k < arrs0.len() ==> agree_on(#[trigger] arrs0[k], arrs0[0], ov0);
    let arrs1 = other1.spec_arrangements();
    let e2 = arrs1.len() > 0 && forall|k: int| 1 <= k < arrs1.len() ==> agree_on(#[trigger] arrs1[k], arrs1[0], ov1);
    if second && e2 {
        assert forall|t: int| 0 <= t < ov1.len() && other1.spec_mask()[t] && self0.spec_mask()[t] implies #[trigger] ov1[t] by {
            if !e {
                assert(ov0[t]);
            }
        }
        crate::placements::lemma_cut_restores_match(other1, self0, self1, ov1, gs, p);
    }
    if e {
        assert forall|t: int| 0 <= t < ov0.len() && self0.spec_mask()[t] && other0.spec_mask()[t] implies #[trigger] ov0[t] by {}
        crate::placements::lemma_cut_restores_match(self0, other0, other1, ov0, gs, p);
    }
}

impl ArrangementSet {
    /// Takes the tiles and groups of `other` out of this set and out of each arrangement.
    fn remove(&mut self, other: &Self, Ghost(ng): Ghost<nat>)
        requires
            old(self).wf_in(old(self).spec_mask().len(), ng),
            other.wf_in(old(self).spec_mask().len(), ng),
        ensures
            final(self).wf_in(old(self).spec_mask().len(), ng),
            final(self).spec_mask() == minus_seq(old(self).spec_mask(), other.spec_mask()),
            final(self).spec_groups() == minus_seq(old(self).spec_groups(), other.spec_groups()),
            final(self).spec_arrangements().len() == old(self).spec_arrangements().len(),
            forall|k: int| 0 <= k < final(self).spec_arrangements().len() ==> #[trigger] final(self).spec_arrangements()[k]
                == minus_seq(old(self).spec_arrangements()[k], other.spec_mask()),
    {
        let ghost n = self.mask@.len();
        let ghost a0 = self.arrangements@;
        let ghost m0 = self.mask@;
        let mut k: usize = 0;
        while k < self.arrangements.len()
            invariant
                self.mask@ == m0,
                self.mask.wf(),
                self.groups == old(self).groups,
                self.groups.wf(),
                self.groups@.len() == n,
                other.groups.wf(),
                other.groups@.len() == n,
                other.mask.wf(),
                other.mask@.len() == n,
                m0.len() == n,
                self.arrangements@.len() == a0.len(),
                k <= a0.len(),
                forall|m: int| 0 <= m < a0.len() ==> (#[trigger] a0[m]).wf() && a0[m]@.len() == n && subset(a0[m]@, m0),
                forall|m: int| 0 <= m < k ==> (#[trigger] self.arrangements@[m]).wf()
                    && self.arrangements@[m]@ == minus_seq(a0[m]@, other.mask@),
                forall|m: int| k <= m < a0.len() ==> #[trigger] self.arrangements@[m] == a0[m],
            decreases self.arrangements.len() - k,
        {
            let v = self.arrangements[k].sub(&other.mask);
            self.arrangements.set(k, v);
            assert(self.arrangements@[k as int]@ =~= minus_seq(a0[k as int]@, other.mask@));
            k = k + 1;
        }
        self.groups.sub_assign(&other.groups);
        self.mask.sub_assign(&other.mask);
        proof {
            assert(self.mask@ =~= minus_seq(m0, other.mask@));
            assert(self.groups@ =~= minus_seq(old(self).groups@, other.groups@));
            assert forall|k: int| 0 <= k < self.arrangements@.len() implies subset(#[trigger] self.arrangements@[k]@, self.mask@) by {
                assert(subset(a0[k]@, m0));
            }
            assert forall|k: int| 0 <= k < self.spec_arrangements().len() implies #[trigger] self.spec_arrangements()[k]
                == minus_seq(old(self).spec_arrangements()[k], other.spec_mask()) by {
                assert(self.spec_arrangements()[k] == self.arrangements@[k]@);
            }
        }
    }

    /// When every arrangement of this set agrees with the first on `overlap`, keeps the
    /// arrangements of `other` that agree with it there and takes this set's tiles and groups
    /// out of `other`. Answers whether that happened with more than one arrangement left on
    /// both sides; when it happened without that, `overlap` is cleared.
    fn try_merge_equal_value(&self, other: &mut Self, overlap: &mut BitSet, Ghost(ng): Ghost<nat>) -> (r: Option<()>)
        requires
            self.wf_in(self.spec_mask().len(), ng),
            old(other).wf_in(self.spec_mask().len(), ng),
            old(overlap).wf(),
            old(overlap)@.len() == self.spec_mask().len(),
        ensures
            final(other).wf_in(self.spec_mask().len(), ng),
            final(overlap).wf(),
            final(overlap)@.len() == old(overlap)@.len(),
            ({
                let arrs = self.spec_arrangements();
                let e = arrs.len() > 0 && forall|k: int| 1 <= k < arrs.len() ==> agree_on(
                    #[trigger] arrs[k],
                    arrs[0],
                    old(overlap)@,
                );
                &&& !e ==> r is None && *final(other) == *old(other) && final(overlap)@ == old(overlap)@
                &&& e ==> {
                    &&& final(other).spec_mask() == minus_seq(old(other).spec_mask(), self.spec_mask())
                    &&& final(other).spec_groups() == minus_seq(old(other).spec_groups(), self.spec_groups())
                    &&& forall|x: Seq<bool>| #[trigger] final(other).spec_arrangements().contains(x) <==> exists|a: Seq<bool>|
                        #[trigger] old(other).spec_arrangements().contains(a) && agree_on(a, arrs[0], old(overlap)@) && x
                            == minus_seq(a, self.spec_mask())
                    &&& (r is Some) == (arrs.len() > 1 && final(other).spec_arrangements().len() > 1)
                    &&& r is None ==> final(overlap)@ == Seq::new(old(overlap)@.len(), |i: int| false)
                    &&& r is Some ==> final(overlap)@ == old(overlap)@
                }
            }),
    {
        let ghost n = self.mask@.len();
        let ghost arrs = self.spec_arrangements();
        if self.arrangements.len() == 0 {
            return None;
        }
        let overlap_arrangement = self.arrangements[0].bitand(overlap);
        proof {
            assert(arrs[0] == self.arrangements@[0]@);
        }
        if !rest_equal_on_mask(&self.arrangements, &overlap_arrangement, overlap) {
            proof {
                let k = choose|k: int| 1 <= k < self.arrangements@.len() && !(forall|i: int|
                    0 <= i < overlap@.len() && #[trigger] overlap@[i] ==> (#[trigger] self.arrangements@[k])@[i] == overlap_arrangement@[i]);
                assert(arrs[k] == self.arrangements@[k]@);
                assert(!agree_on(arrs[k], arrs[0], overlap@));
            }
            return None;
        }
        proof {
            assert forall|k: int| 1 <= k < arrs.len() implies agree_on(#[trigger] arrs[k], arrs[0], overlap@) by {
                assert(arrs[k] == self.arrangements@[k]@);
                assert forall|i: int| 0 <= i < overlap@.len() && #[trigger] overlap@[i] implies arrs[k][i] == arrs[0][i] by {
                    assert(self.arrangements@[k]@[i] == overlap_arrangement@[i]);
                }
            }
            assert forall|k: int| 0 <= k < other.arrangements@.len() implies (#[trigger] other.arrangements@[k]).wf()
                && other.arrangements@[k]@.len() == overlap@.len() by {}
        }
        let ghost o0 = other.spec_arrangements();
        let kept = filter_equal_on_mask(&other.arrangements, &overlap_arrangement, overlap);
        proof {
            assert forall|x: Seq<bool>| agree_on(x, overlap_arrangement@, overlap@) <==> agree_on(x, arrs[0], overlap@) by {
                if agree_on(x, overlap_arrangement@, overlap@) {
                    assert forall|i: int| 0 <= i < overlap@.len() && #[trigger] overlap@[i] implies x[i] == arrs[0][i] by {
                        assert(x[i] == overlap_arrangement@[i]);
                    }
                }
                if agree_on(x, arrs[0], overlap@) {
                    assert forall|i: int| 0 <= i < overlap@.len() && #[trigger] overlap@[i] implies x[i] == overlap_arrangement@[i] by {
                        assert(x[i] == arrs[0][i]);
                    }
                }
            }
            assert forall|k: int| 0 <= k < kept@.len() implies subset(#[trigger] kept@[k]@, other.mask@) by {
                assert(sets_view(kept@)[k] == kept@[k]@);
                assert(sets_view(kept@).contains(kept@[k]@));
                let i = choose|i: int| 0 <= i < o0.len() && o0[i] == kept@[k]@;
                assert(o0[i] == other.arrangements@[i]@);
            }
        }
        let ghost kv = sets_view(kept@);
        other.arrangements = kept;
        other.remove(self, Ghost(ng));
        proof {
            let fin = other.spec_arrangements();
            assert forall|x: Seq<bool>| #[trigger] fin.contains(x) <==> exists|a: Seq<bool>|
                #[trigger] o0.contains(a) && agree_on(a, arrs[0], overlap@) && x == minus_seq(a, self.spec_mask()) by {
                if fin.contains(x) {
                    let k = choose|k: int| 0 <= k < fin.len() && fin[k] == x;
                    assert(kv[k] == kv[k]);
                    assert(kv.contains(kv[k]));
                    assert(o0.contains(kv[k]));
                }
                if exists|a: Seq<bool>| #[trigger] o0.contains(a) && agree_on(a, arrs[0], overlap@) && x == minus_seq(a, self.spec_mask()) {
                    let a = choose|a: Seq<bool>| #[trigger] o0.contains(a) && agree_on(a, arrs[0], overlap@) && x == minus_seq(a, self.spec_mask());
                    assert(kv.contains(a));
                    let k = choose|k: int| 0 <= k < kv.len() && kv[k] == a;
                    assert(fin[k] == x);
                }
            }
        }
        if self.arrangements.len() <= 1 || other.arrangements.len() <= 1 {
            overlap.clear();
            return None;
        }
        Some(())
    }

    /// Merges `other` into this set. When one side settles the tiles the two share, the other
    /// side is cut down to what is left of it, and a remainder may come back as a separate set
    /// (`Err`); otherwise the arrangements of both that agree on the shared tiles are joined.
    fn try_merge(&mut self, other: Self, Ghost(ng): Ghost<nat>, Ghost(gs): Ghost<Seq<Seq<bool>>>) -> (r: Result<(), Self>)
        requires
            old(self).wf_in(old(self).spec_mask().len(), ng),
            other.wf_in(old(self).spec_mask().len(), ng),
            overlap_count(old(self).spec_mask(), other.spec_mask()) >= 1,
        ensures
            final(self).wf_in(old(self).spec_mask().len(), ng),
            subset(final(self).spec_mask(), or_seq(old(self).spec_mask(), other.spec_mask())),
            r matches Err(o) ==> {
                &&& o.wf_in(old(self).spec_mask().len(), ng)
                &&& subset(o.spec_mask(), other.spec_mask())
                &&& subset(final(self).spec_mask(), old(self).spec_mask())
                &&& forall|t: int| 0 <= t < o.spec_mask().len() ==> !(#[trigger] o.spec_mask()[t] && final(self).spec_mask()[t])
                &&& true_count(final(self).spec_mask()) + true_count(o.spec_mask()) < true_count(old(self).spec_mask())
                    + true_count(other.spec_mask())
            },
            r is Ok ==> final(self).spec_mask() == or_seq(old(self).spec_mask(), other.spec_mask()),
            r matches Err(o) ==> or_seq(final(self).spec_mask(), o.spec_mask()) == or_seq(old(self).spec_mask(), other.spec_mask()),
            (groups_fit(gs, old(self).spec_mask().len()) && gs.len() == ng && on_groups(*old(self), gs) && on_groups(
                other,
                gs,
            )) ==> {
                &&& on_groups(*final(self), gs)
                &&& (r matches Err(o) ==> on_groups(o, gs))
                &&& forall|p: Seq<bool>|
                    p.len() == old(self).spec_mask().len() && #[trigger] has_match(*old(self), p, gs) && has_match(other, p, gs)
                        ==> has_match(*final(self), p, gs) && (r matches Err(o) ==> has_match(o, p, gs))
                &&& forall|p: Seq<bool>|
                    p.len() == old(self).spec_mask().len() && #[trigger] has_match(*final(self), p, gs) && (r matches Err(o)
                        ==> has_match(o, p, gs)) ==> has_match(*old(self), p, gs) && has_match(other, p, gs)
                &&& canonical_set(*old(self), gs) && canonical_set(other, gs) ==> canonical_set(*final(self), gs) && (
                r matches Err(o) ==> canonical_set(o, gs))
            },
    {
        let ghost n = self.mask@.len();
        let ghost sm0 = self.mask@;
        let ghost om0 = other.mask@;
        let ghost self0 = *self;
        let ghost other0 = other;
        let ghost ok = groups_fit(gs, n) && gs.len() == ng && on_groups(self0, gs) && on_groups(other0, gs);
        let merged_mask = self.mask.bitor(&other.mask);
        let mut overlap = self.mask.bitand(&other.mask);
        let mut other = other;
        proof {
            let both = Seq::new(n, |i: int| sm0[i] && om0[i]);
            crate::bits::lemma_true_count_zero(both);
            let t = choose|t: int| 0 <= t < both.len() && both[t];
            assert(sm0[t] && om0[t]);
        }
        let ghost t = choose|t: int| 0 <= t < n && #[trigger] sm0[t] && om0[t];
        let ghost ov0 = overlap@;
        let first = self.try_merge_equal_value(&mut other, &mut overlap, Ghost(ng));
        let ghost om1 = other.mask@;
        let ghost other1 = other;
        let ghost ov1 = overlap@;
        let ghost first_cut = om1 != om0;
        proof {
            // what the first comparison did to `other`
            let arrs = self0.spec_arrangements();
            let e = arrs.len() > 0 && forall|k: int| 1 <= k < arrs.len() ==> agree_on(#[trigger] arrs[k], arrs[0], ov0);
            if e {
                assert(om1 =~= minus_seq(om0, sm0));
            }
            if ok {
                self0.lemma_wf_in(n, ng);
                other0.lemma_wf_in(n, ng);
                if e {
                    crate::placements::lemma_region_minus(gs, other0.spec_groups(), self0.spec_groups());
                    assert(on_groups(other1, gs));
                    assert forall|p: Seq<bool>|
                        p.len() == n && #[trigger] has_match(self0, p, gs) && has_match(other0, p, gs) implies has_match(
                        other1,
                        p,
                        gs,
                    ) by {
                        crate::placements::lemma_cut_keeps_match(self0, other0, other1, ov0, gs, p);
                    }
                }
            }
        }
        let merged = if first.is_some() {
            true
        } else {
            other.try_merge_equal_value(self, &mut overlap, Ghost(ng)).is_some()
        };
        let ghost self1 = *self;
        let ghost ov2 = overlap@;
        proof {
            // what the second comparison did to `self`
            if first.is_none() {
                let arrs = other1.spec_arrangements();
                let e2 = arrs.len() > 0 && forall|k: int| 1 <= k < arrs.len() ==> agree_on(#[trigger] arrs[k], arrs[0], ov1);
                if e2 {
                    assert(self.mask@ =~= minus_seq(sm0, om1));
                }
                if ok {
                    other1.lemma_wf_in(n, ng);
                    assert forall|i: int| 0 <= i < ov1.len() && #[trigger] ov1[i] implies other1.spec_mask()[i]
                        && self0.spec_mask()[i] by {
                        assert(ov0[i]);
                    }
                    if e2 {
                        crate::placements::lemma_region_minus(gs, self0.spec_groups(), other1.spec_groups());
                        assert(on_groups(*self, gs));
                        assert forall|p: Seq<bool>|
                            p.len() == n && #[trigger] has_match(self0, p, gs) && has_match(other0, p, gs) implies has_match(
                            *self,
                            p,
                            gs,
                        ) by {
                            crate::placements::lemma_cut_keeps_match(other1, self0, *self, ov1, gs, p);
                        }
                    }
                }
            }
        }
        proof {
            if ok && canonical_set(self0, gs) && canonical_set(other0, gs) {
                self0.lemma_wf_in(n, ng);
                other0.lemma_wf_in(n, ng);
                let arrs_s = self0.spec_arrangements();
                let e = arrs_s.len() > 0 && forall|k: int| 1 <= k < arrs_s.len() ==> agree_on(#[trigger] arrs_s[k], arrs_s[0], ov0);
                if e {
                    crate::placements::lemma_cut_set_canonical(self0, other0, other1, ov0, gs);
                }
                let arrs_o = other1.spec_arrangements();
                let e2 = arrs_o.len() > 0 && forall|k: int| 1 <= k < arrs_o.len() ==> agree_on(#[trigger] arrs_o[k], arrs_o[0], ov1);
                if first.is_none() && e2 {
                    other1.lemma_wf_in(n, ng);
                    crate::placements::lemma_cut_set_canonical(other1, self0, self1, ov1, gs);
                }
                assert(canonical_set(other1, gs));
                assert(canonical_set(self1, gs));
            }
        }
        if merged {
            proof {
                assert(subset(self.mask@, sm0));
                assert(subset(other.mask@, om0));
                if first.is_some() {
                    assert(self.mask@ == sm0);
                    assert(other.mask@ =~= minus_seq(om0, sm0));
                    assert(!other.mask@[t]);
                    lemma_true_count_strict(other.mask@, om0, t);
                } else {
                    assert(self.mask@ =~= minus_seq(sm0, om1));
                    if om1 == om0 {
                        assert(!self.mask@[t]);
                        lemma_true_count_strict(self.mask@, sm0, t);
                        lemma_true_count_subset(other.mask@, om0);
                    } else {
                        assert(om1 =~= minus_seq(om0, sm0));
                        assert(!om1[t]);
                        lemma_true_count_strict(om1, om0, t);
                        lemma_true_count_subset(self.mask@, sm0);
                    }
                }
            }
            proof {
                if ok {
                    self0.lemma_wf_in(n, ng);
                    other0.lemma_wf_in(n, ng);
                    other1.lemma_wf_in(n, ng);
                    self1.lemma_wf_in(n, ng);
                    assert(on_groups(other1, gs));
                }
                assert(or_seq(self.mask@, other.mask@) =~= or_seq(sm0, om0)) by {
                    if first.is_some() {
                        assert(self.mask@ == sm0);
                        assert(other.mask@ =~= minus_seq(om0, sm0));
                    } else {
                        assert(self.mask@ =~= minus_seq(sm0, om1));
                        if om1 != om0 {
                            assert(om1 =~= minus_seq(om0, sm0));
                        }
                    }
                }
            }
            if !self.mask.any() {
                proof {
                    assert(other.mask@ =~= or_seq(sm0, om0)) by {
                        assert forall|u: int| 0 <= u < n implies !self.mask@[u] by {
                            if self.mask@[u] {
                                assert(self.mask@.contains(true));
                            }
                        }
                    }
                    if ok {
                        assert forall|u: int| 0 <= u < n implies !#[trigger] self1.spec_mask()[u] by {
                            if self1.spec_mask()[u] {
                                assert(self.mask@[u]);
                                assert(self.mask@.contains(true));
                            }
                        }
                        assert forall|p: Seq<bool>| p.len() == n && #[trigger] has_match(other1, p, gs) implies has_match(self0, p, gs)
                            && has_match(other0, p, gs) by {
                            if first.is_some() {
                                assert(self1.spec_mask()[t]);
                            } else {
                                crate::placements::lemma_empty_region_match(self1, gs, p);
                                lemma_merge_restores(self0, other0, other1, self1, ov0, ov1, true, gs, p);
                            }
                        }
                    }
                }
                std::mem::swap(self, &mut other);
                return Ok(());
            }
            if other.mask.any() {
                proof {
                    if ok {
                        assert forall|p: Seq<bool>| p.len() == n && #[trigger] has_match(self1, p, gs) && has_match(other1, p, gs)
                            implies has_match(self0, p, gs) && has_match(other0, p, gs) by {
                            lemma_merge_restores(self0, other0, other1, self1, ov0, ov1, first.is_none(), gs, p);
                        }
                    }
                }
                return Err(other);
            }
            proof {
                assert(self.mask@ =~= or_seq(sm0, om0)) by {
                    assert forall|u: int| 0 <= u < n implies !other.mask@[u] by {
                        if other.mask@[u] {
                            assert(other.mask@.contains(true));
                        }
                    }
                }
                if ok {
                    assert forall|u: int| 0 <= u < n implies !#[trigger] other1.spec_mask()[u] by {
                        if other1.spec_mask()[u] {
                            assert(other.mask@[u]);
                            assert(other.mask@.contains(true));
                        }
                    }
                    assert forall|p: Seq<bool>| p.len() == n && #[trigger] has_match(self1, p, gs) implies has_match(self0, p, gs)
                        && has_match(other0, p, gs) by {
                        crate::placements::lemma_empty_region_match(other1, gs, p);
                        lemma_merge_restores(self0, other0, other1, self1, ov0, ov1, first.is_none(), gs, p);
                    }
                }
            }
            return Ok(());
        }
        let ghost self2 = *self;
        let mut new_arrangements: Vec<BitSet> = Vec::new();
        let mut i: usize = 0;
        while i < self.arrangements.len()
            invariant
                self.wf_in(n, ng),
                other.wf_in(n, ng),
                overlap.wf(),
                overlap@.len() == n,
                subset(self.mask@, sm0),
                subset(other.mask@, om0),
                merged_mask@ == or_seq(sm0, om0),
                sm0.len() == n,
                om0.len() == n,
                i <= self.arrangements@.len(),
                forall|m: int| 0 <= m < new_arrangements@.len() ==> (#[trigger] new_arrangements@[m]).wf()
                    && new_arrangements@[m]@.len() == n && subset(new_arrangements@[m]@, merged_mask@),
                forall|i2: int, j2: int|
                    0 <= i2 < i && 0 <= j2 < other.arrangements@.len() && agree_on(
                        #[trigger] self.arrangements@[i2]@,
                        #[trigger] other.arrangements@[j2]@,
                        overlap@,
                    ) ==> sets_view(new_arrangements@).contains(or_seq(self.arrangements@[i2]@, other.arrangements@[j2]@)),
                forall|m: int| 0 <= m < new_arrangements@.len() ==> #[trigger] joined_pair(
                    new_arrangements@[m]@,
                    self.arrangements@,
                    other.arrangements@,
                    overlap@,
                ),
            decreases self.arrangements.len() - i,
        {
            let mut j: usize = 0;
            while j < other.arrangements.len()
                invariant
                    self.wf_in(n, ng),
                    other.wf_in(n, ng),
                    overlap.wf(),
                    overlap@.len() == n,
                    subset(self.mask@, sm0),
                    subset(other.mask@, om0),
                    merged_mask@ == or_seq(sm0, om0),
                    sm0.len() == n,
                    om0.len() == n,
                    i < self.arrangements@.len(),
                    j <= other.arrangements@.len(),
                    forall|m: int| 0 <= m < new_arrangements@.len() ==> (#[trigger] new_arrangements@[m]).wf()
                        && new_arrangements@[m]@.len() == n && subset(new_arrangements@[m]@, merged_mask@),
                    forall|i2: int, j2: int|
                        0 <= i2 < i && 0 <= j2 < other.arrangements@.len() && agree_on(
                            #[trigger] self.arrangements@[i2]@,
                            #[trigger] other.arrangements@[j2]@,
                            overlap@,
                        ) ==> sets_view(new_arrangements@).contains(or_seq(self.arrangements@[i2]@, other.arrangements@[j2]@)),
                    forall|j2: int|
                        0 <= j2 < j && agree_on(self.arrangements@[i as int]@, #[trigger] other.arrangements@[j2]@, overlap@)
                            ==> sets_view(new_arrangements@).contains(
                            or_seq(self.arrangements@[i as int]@, other.arrangements@[j2]@),
                        ),
                    forall|m: int| 0 <= m < new_arrangements@.len() ==> #[trigger] joined_pair(
                        new_arrangements@[m]@,
                        self.arrangements@,
                        other.arrangements@,
                        overlap@,
                    ),
                decreases other.arrangements.len() - j,
            {
                let ghost before = new_arrangements@;
                if self.arrangements[i].equal_on_mask(&other.arrangements[j], &overlap) {
                    let v = self.arrangements[i].bitor(&other.arrangements[j]);
                    proof {
                        let a1 = self.arrangements@[i as int]@;
                        let a2 = other.arrangements@[j as int]@;
                        assert(subset(a1, self.mask@));
                        assert(subset(a2, other.mask@));
                        assert forall|t: int| 0 <= t < v@.len() && #[trigger] v@[t] implies t < merged_mask@.len() && merged_mask@[t] by {
                            assert(a1.len() == n && a2.len() == n);
                            if a1[t] {
                                assert(self.mask@[t]);
                                assert(sm0[t]);
                            } else {
                                assert(other.mask@[t]);
                                assert(om0[t]);
                            }
                        }
                    }
                    new_arrangements.push(v);
                }
                proof {
                    let nv = sets_view(new_arrangements@);
                    let bv = sets_view(before);
                    assert forall|x: Seq<bool>| bv.contains(x) implies nv.contains(x) by {
                        let m = choose|m: int| 0 <= m < bv.len() && bv[m] == x;
                        assert(nv[m] == x);
                    }
                    let a1 = self.arrangements@[i as int]@;
                    let a2 = other.arrangements@[j as int]@;
                    if agree_on(a1, a2, overlap@) {
                        assert(nv[before.len() as int] == or_seq(a1, a2));
                    }
                    assert forall|m: int| 0 <= m < new_arrangements@.len() implies #[trigger] joined_pair(
                        new_arrangements@[m]@,
                        self.arrangements@,
                        other.arrangements@,
                        overlap@,
                    ) by {
                        if m < before.len() {
                            assert(new_arrangements@[m] == before[m]);
                        } else {
                            assert(new_arrangements@[m]@ == or_seq(a1, a2));
                            assert(agree_on(self.arrangements@[i as int]@, other.arrangements@[j as int]@, overlap@));
                        }
                    }
                }
                j = j + 1;
            }
            i = i + 1;
        }
        let ghost other2 = other;
        self.mask = merged_mask;
        self.arrangements = new_arrangements;
        self.groups.add_assign(&other.groups);
        proof {
            if ok {
                self2.lemma_wf_in(n, ng);
                other2.lemma_wf_in(n, ng);
                // the two sets together still cover the tiles of both
                assert forall|u: int| 0 <= u < n implies or_seq(self2.spec_mask(), other2.spec_mask())[u] == or_seq(sm0, om0)[u] by {
                    if sm0[u] && !self2.spec_mask()[u] {
                        assert(other2.spec_mask()[u]);
                    }
                }
                assert(or_seq(self2.spec_mask(), other2.spec_mask()) =~= or_seq(sm0, om0));
                crate::placements::lemma_region_or(gs, self2.spec_groups(), other2.spec_groups());
                assert(on_groups(*self, gs));
                assert forall|p: Seq<bool>|
                    p.len() == n && #[trigger] has_match(self0, p, gs) && has_match(other0, p, gs) implies has_match(
                    *self,
                    p,
                    gs,
                ) by {
                    let s_arrs = self2.spec_arrangements();
                    let o_arrs = other2.spec_arrangements();
                    assert(has_match(self2, p, gs));
                    assert(has_match(other2, p, gs));
                    let a_s = choose|a: Seq<bool>| #[trigger] s_arrs.contains(a) && matches_on(a, p, gs, self2.spec_groups());
                    let a_o = choose|a: Seq<bool>| #[trigger] o_arrs.contains(a) && matches_on(a, p, gs, other2.spec_groups());
                    let i2 = choose|i2: int| 0 <= i2 < s_arrs.len() && s_arrs[i2] == a_s;
                    let j2 = choose|j2: int| 0 <= j2 < o_arrs.len() && o_arrs[j2] == a_o;
                    crate::placements::lemma_join_match(a_s, a_o, p, gs, self2.spec_groups(), other2.spec_groups());
                    assert(agree_on(a_s, a_o, overlap@)) by {
                        assert forall|u: int| 0 <= u < overlap@.len() && #[trigger] overlap@[u] implies a_s[u] == a_o[u] by {
                            assert(ov0[u]);
                            assert(self2.spec_mask()[u] && other2.spec_mask()[u]);
                        }
                    }
                    assert(self2.arrangements@[i2]@ == a_s);
                    assert(other2.arrangements@[j2]@ == a_o);
                    assert(self.spec_arrangements().contains(or_seq(a_s, a_o)));
                }
                // the tiles both sides still hold lie in the overlap they were joined on
                let arrs_s = self0.spec_arrangements();
                let e = arrs_s.len() > 0 && forall|k: int| 1 <= k < arrs_s.len() ==> agree_on(#[trigger] arrs_s[k], arrs_s[0], ov0);
                let arrs_o = other1.spec_arrangements();
                let e2 = arrs_o.len() > 0 && forall|k: int| 1 <= k < arrs_o.len() ==> agree_on(#[trigger] arrs_o[k], arrs_o[0], ov1);
                assert forall|u: int| 0 <= u < n && self2.spec_mask()[u] && other2.spec_mask()[u] implies #[trigger] ov2[u] by {
                    if e2 {
                        assert(self2.spec_mask() == minus_seq(sm0, other1.spec_mask()));
                    } else if e {
                        assert(other1.spec_mask() == minus_seq(om0, sm0));
                    } else {
                        assert(ov0[u]);
                    }
                }
                assert(self.spec_groups() =~= or_seq(self2.spec_groups(), other2.spec_groups()));
                if canonical_set(self0, gs) && canonical_set(other0, gs) {
                    assert forall|x: Seq<bool>| #[trigger] self.spec_arrangements().contains(x) implies matches_on(
                        x, x, gs, self.spec_groups()) by {
                        let m = choose|m: int| 0 <= m < self.spec_arrangements().len() && self.spec_arrangements()[m] == x;
                        assert(self.arrangements@[m]@ == x);
                        assert(joined_pair(x, self2.arrangements@, other2.arrangements@, ov2));
                        let (i2, j2) = choose|i2: int, j2: int|
                            0 <= i2 < self2.arrangements@.len() && 0 <= j2 < other2.arrangements@.len() && agree_on(
                                self2.arrangements@[i2]@,
                                other2.arrangements@[j2]@,
                                ov2,
                            ) && x == #[trigger] or_seq(self2.arrangements@[i2]@, other2.arrangements@[j2]@);
                        let a = self2.arrangements@[i2]@;
                        let b = other2.arrangements@[j2]@;
                        assert(self2.spec_arrangements()[i2] == a);
                        assert(other2.spec_arrangements()[j2] == b);
                        assert(self2.spec_arrangements().contains(a));
                        assert(other2.spec_arrangements().contains(b));
                        assert forall|u: int| 0 <= u < n && region(gs, self2.spec_groups())[u] && region(gs, other2.spec_groups())[u]
                            implies #[trigger] a[u] == b[u] by {
                            assert(ov2[u]);
                        }
                        crate::placements::lemma_join_canonical(a, b, gs, self2.spec_groups(), other2.spec_groups());
                    }
                }
                assert forall|p: Seq<bool>|
                    p.len() == n && #[trigger] has_match(*self, p, gs) implies has_match(self0, p, gs) && has_match(other0, p, gs) by {
                    let x = choose|x: Seq<bool>| #[trigger] self.spec_arrangements().contains(x) && matches_on(x, p, gs, self.spec_groups());
                    let m = choose|m: int| 0 <= m < self.spec_arrangements().len() && self.spec_arrangements()[m] == x;
                    assert(self.arrangements@[m]@ == x);
                    assert(joined_pair(x, self2.arrangements@, other2.arrangements@, ov2));
                    let (i2, j2) = choose|i2: int, j2: int|
                        0 <= i2 < self2.arrangements@.len() && 0 <= j2 < other2.arrangements@.len() && agree_on(
                            self2.arrangements@[i2]@,
                            other2.arrangements@[j2]@,
                            ov2,
                        ) && x == #[trigger] or_seq(self2.arrangements@[i2]@, other2.arrangements@[j2]@);
                    let a = self2.arrangements@[i2]@;
                    let b = other2.arrangements@[j2]@;
                    assert(self2.spec_arrangements()[i2] == a);
                    assert(other2.spec_arrangements()[j2] == b);
                    assert forall|u: int| 0 <= u < n && region(gs, self2.spec_groups())[u] && region(gs, other2.spec_groups())[u]
                        implies #[trigger] a[u] == b[u] by {
                        assert(ov2[u]);
                    }
                    crate::placements::lemma_split_match(a, b, p, gs, self2.spec_groups(), other2.spec_groups());
                    assert(self2.spec_arrangements().contains(a));
                    assert(other2.spec_arrangements().contains(b));
                    assert(has_match(self1, p, gs));
                    assert(has_match(other1, p, gs));
                    lemma_merge_restores(self0, other0, other1, self1, ov0, ov1, true, gs, p);
                }
            }
        }
        Ok(())
    }

    /// The numbers of mines of the arrangements, as a set of counts.
    fn summarize(&self, Ghost(ng): Ghost<nat>) -> (r: BitSet)
        requires
            self.wf_in(self.spec_mask().len(), ng),
            true_count(self.spec_mask()) < self.spec_mask().len(),
        ensures
            r.wf(),
            r@ == Seq::new(
                self.spec_mask().len(),
                |c: int| exists|a: Seq<bool>| #[trigger] self.spec_arrangements().contains(a) && true_count(a) == c,
            ),
    {
        let ghost n = self.mask@.len();
        let ghost arrs = self.spec_arrangements();
        proof {
            crate::bitset::lemma_storage_covers(&self.mask);
        }
        let mut out = BitSet::zeros(self.mask.len());
        let mut k: usize = 0;
        while k < self.arrangements.len()
            invariant
                self.wf_in(n, ng),
                true_count(self.mask@) < n,
                arrs == self.spec_arrangements(),
                out.wf(),
                out@.len() == n,
                k <= arrs.len(),
                forall|c: int| 0 <= c < n ==> #[trigger] out@[c] == exists|a: Seq<bool>| #[trigger] arrs.take(k as int).contains(a)
                    && true_count(a) == c,
            decreases self.arrangements.len() - k,
        {
            let c = self.arrangements[k].count_ones();
            proof {
                lemma_true_count_subset(self.arrangements@[k as int]@, self.mask@);
            }
            let ghost before = out@;
            out.set_to_one(c);
            proof {
                let x0 = arrs[k as int];
                assert(x0 == self.arrangements@[k as int]@);
                let t0 = arrs.take(k as int);
                let t1 = arrs.take(k + 1);
                assert(t1 =~= t0.push(x0));
                assert forall|c2: int| 0 <= c2 < n implies #[trigger] out@[c2] == exists|a: Seq<bool>| #[trigger] t1.contains(a)
                    && true_count(a) == c2 by {
                    if exists|a: Seq<bool>| #[trigger] t1.contains(a) && true_count(a) == c2 {
                        let a = choose|a: Seq<bool>| #[trigger] t1.contains(a) && true_count(a) == c2;
                        let i = choose|i: int| 0 <= i < t1.len() && t1[i] == a;
                        if i < k {
                            assert(t0[i] == a);
                            assert(t0.contains(a));
                        }
                    }
                    if exists|a: Seq<bool>| #[trigger] t0.contains(a) && true_count(a) == c2 {
                        let a = choose|a: Seq<bool>| #[trigger] t0.contains(a) && true_count(a) == c2;
                        let i = choose|i: int| 0 <= i < t0.len() && t0[i] == a;
                        assert(t1[i] == a);
                        assert(t1.contains(a));
                    }
                    assert(t1[k as int] == x0);
                    assert(t1.contains(x0));
                }
            }
            k = k + 1;
        }
        proof {
            assert(arrs.take(arrs.len() as int) == arrs);
            assert(out@ =~= Seq::new(n, |c: int| exists|a: Seq<bool>| #[trigger] arrs.contains(a) && true_count(a) == c));
        }
        out
    }

    /// Keeps the arrangements whose number of mines is in `summary`.
    fn retain_with_summary(&mut self, summary: &BitSet, Ghost(ng): Ghost<nat>)
        requires
            old(self).wf_in(old(self).spec_mask().len(), ng),
            true_count(old(self).spec_mask()) < old(self).spec_mask().len(),
            summary.wf(),
            summary@.len() == old(self).spec_mask().len(),
        ensures
            final(self).wf_in(old(self).spec_mask().len(), ng),
            final(self).spec_mask() == old(self).spec_mask(),
            final(self).spec_groups() == old(self).spec_groups(),
            forall|x: Seq<bool>| #[trigger] final(self).spec_arrangements().contains(x) <==> old(self).spec_arrangements().contains(x)
                && summary@[true_count(x) as int],
    {
        let ghost n = self.mask@.len();
        let ghost arrs = self.spec_arrangements();
        let mut kept: Vec<BitSet> = Vec::new();
        let mut k: usize = 0;
        while k < self.arrangements.len()
            invariant
                self.wf_in(n, ng),
                true_count(self.mask@) < n,
                arrs == self.spec_arrangements(),
                self.spec_mask() == old(self).spec_mask(),
                self.spec_groups() == old(self).spec_groups(),
                arrs == old(self).spec_arrangements(),
                summary.wf(),
                summary@.len() == n,
                k <= arrs.len(),
                forall|m: int| 0 <= m < kept@.len() ==> (#[trigger] kept@[m]).wf() && kept@[m]@.len() == n
                    && subset(kept@[m]@, self.mask@),
                forall|x: Seq<bool>| #[trigger] sets_view(kept@).contains(x) <==> arrs.take(k as int).contains(x)
                    && summary@[true_count(x) as int],
            decreases self.arrangements.len() - k,
        {
            let c = self.arrangements[k].count_ones();
            proof {
                lemma_true_count_subset(self.arrangements@[k as int]@, self.mask@);
                crate::bitset::lemma_storage_covers(summary);
            }
            let ghost kept0 = kept@;
            let keep = summary.get(c);
            if keep {
                kept.push(self.arrangements[k].clone());
            }
            proof {
                let x0 = arrs[k as int];
                assert(x0 == self.arrangements@[k as int]@);
                let t0 = arrs.take(k as int);
                let t1 = arrs.take(k + 1);
                assert(t1 =~= t0.push(x0));
                assert(sets_view(kept@) =~= if keep { sets_view(kept0).push(x0) } else { sets_view(kept0) });
                assert forall|x: Seq<bool>| #[trigger] sets_view(kept@).contains(x) <==> t1.contains(x)
                    && summary@[true_count(x) as int] by {
                    assert(sets_view(kept0).contains(x) <==> t0.contains(x) && summary@[true_count(x) as int]);
                    if t1.contains(x) && x != x0 {
                        let i = choose|i: int| 0 <= i < t1.len() && #[trigger] t1[i] == x;
                        assert(t0[i] == x);
                    }
                    if t0.contains(x) {
                        let i = choose|i: int| 0 <= i < t0.len() && #[trigger] t0[i] == x;
                        assert(t1[i] == x);
                    }
                    assert(t1[k as int] == x0);
                    if sets_view(kept@).contains(x) && x != x0 {
                        let m = choose|m: int| 0 <= m < sets_view(kept@).len() && #[trigger] sets_view(kept@)[m] == x;
                        assert(sets_view(kept0)[m] == x);
                    }
                    if sets_view(kept0).contains(x) {
                        let m = choose|m: int| 0 <= m < sets_view(kept0).len() && #[trigger] sets_view(kept0)[m] == x;
                        assert(sets_view(kept@)[m] == x);
                    }
                    if keep {
                        assert(sets_view(kept@)[kept0.len() as int] == x0);
                    }
                }
            }
            k = k + 1;
        }
        proof {
            assert(arrs.take(arrs.len() as int) == arrs);
        }
        self.arrangements = kept;
    }
}


// ---------------------------------------------------------------------------------------------
// Whole-board arrangements

/// The total size of the regions of a list of arrangement sets.
pub open spec fn mask_total(subs: Seq<ArrangementSet>) -> nat
    decreases subs.len(),
{
    if subs.len() == 0 {
        0
    } else {
        mask_total(subs.drop_last()) + true_count(subs.last().spec_mask())
    }
}

proof fn lemma_mask_total_update(subs: Seq<ArrangementSet>, p: int, x: ArrangementSet)
    requires
        0 <= p < subs.len(),
    ensures
        mask_total(subs.update(p, x)) + true_count(subs[p].spec_mask()) == mask_total(subs) + true_count(x.spec_mask()),
    decreases subs.len(),
{
    let u = subs.update(p, x);
    if p == subs.len() - 1 {
        assert(u.drop_last() =~= subs.drop_last());
    } else {
        assert(u.drop_last() =~= subs.drop_last().update(p, x));
        lemma_mask_total_update(subs.drop_last(), p, x);
    }
}

proof fn lemma_mask_total_swap_remove(subs: Seq<ArrangementSet>, p: int)
    requires
        0 <= p < subs.len(),
    ensures
        mask_total(subs.update(p, subs.last()).drop_last()) + true_count(subs[p].spec_mask()) == mask_total(subs),
{
    let u = subs.update(p, subs.last());
    lemma_mask_total_update(subs, p, subs.last());
    assert(u.last() == subs.last());
}

impl ArrangementSet {
    /// A set with no tiles, no groups and no arrangement.
    fn empty(n: usize) -> (r: Self)
        requires
            len_fits(n as nat),
        ensures
            r.wf_in(n as nat, 0),
            r.spec_mask() == Seq::new(n as nat, |i: int| false),
    {
        ArrangementSet { mask: BitSet::zeros(n), groups: BitSet::zeros(n), arrangements: Vec::new() }
    }
}

impl MineArrangements {
    /// Merges every pair of regions that share tiles, until no two regions overlap at the
    /// time they are compared.
    #[verifier::spinoff_prover]
    #[verifier::rlimit(40)]
    fn merge_all_subsolutions(&mut self)
        requires
            old(self).wf(),
        ensures
            final(self).wf(),
            final(self).spec_mask() == old(self).spec_mask(),
            final(self).spec_groups() == old(self).spec_groups(),
            final(self).spec_num_tiles() == old(self).spec_num_tiles(),
            final(self).spec_remaining_mines() == old(self).spec_remaining_mines(),
            all_on_groups(old(self).spec_subs(), old(self).spec_groups()) ==> {
                &&& final(self).exact()
                &&& forall|p: Seq<bool>|
                    p.len() == old(self).spec_num_tiles() && #[trigger] all_match(old(self).spec_subs(), p, old(self).spec_groups())
                        ==> all_match(final(self).spec_subs(), p, final(self).spec_groups())
                &&& forall|p: Seq<bool>|
                    p.len() == old(self).spec_num_tiles() && #[trigger] all_match(final(self).spec_subs(), p, final(self).spec_groups())
                        ==> all_match(old(self).spec_subs(), p, old(self).spec_groups())
                &&& all_canonical(old(self).spec_subs(), old(self).spec_groups()) ==> all_canonical(
                    final(self).spec_subs(),
                    final(self).spec_groups(),
                )
            },
    {
        let ghost n = self.num_tiles as nat;
        let ghost ng = self.groups@.len() as nat;
        let ghost mask = self.mask@;
        let ghost gs = sets_view(self.groups@);
        let ghost subs_init = self.sub_arrangements@;
        let ghost on_ok = all_on_groups(subs_init, gs);
        proof {
            self.lemma_wf();
        }
        let mut i: usize = 0;
        while i < self.sub_arrangements.len()
            invariant
                self.wf(),
                n == self.num_tiles,
                ng == self.groups@.len(),
                self.mask@ == mask,
                self.groups == old(self).groups,
                self.num_tiles == old(self).num_tiles,
                self.remaining_mines == old(self).remaining_mines,
                self.mask == old(self).mask,
                gs == sets_view(self.groups@),
                groups_fit(gs, n),
                gs.len() == ng,
                on_ok == all_on_groups(subs_init, gs),
                on_ok ==> all_on_groups(self.sub_arrangements@, gs),
                on_ok ==> forall|a: int, b: int, t: int|
                    0 <= a < i && a < b < self.sub_arrangements@.len() && 0 <= t < n ==> !(
                    #[trigger] self.sub_arrangements@[a].spec_mask()[t] && #[trigger] self.sub_arrangements@[b].spec_mask()[t]),
                on_ok ==> forall|p: Seq<bool>|
                    p.len() == n && #[trigger] all_match(subs_init, p, gs) ==> all_match(self.sub_arrangements@, p, gs),
                on_ok ==> forall|p: Seq<bool>|
                    p.len() == n && #[trigger] all_match(self.sub_arrangements@, p, gs) ==> all_match(subs_init, p, gs),
                on_ok && all_canonical(subs_init, gs) ==> all_canonical(self.sub_arrangements@, gs),
            decreases self.sub_arrangements@.len(), mask_total(self.sub_arrangements@), self.sub_arrangements@.len() - i,
        {
            let len = self.sub_arrangements.len();
            proof {
                assert(self.sub_arrangements@[i as int].wf_in(n, ng));
            }
            let mut best: usize = i;
            let mut best_count: usize = 0;
            let mut j: usize = i + 1;
            while j < len
                invariant
                    self.wf(),
                    len == self.sub_arrangements@.len(),
                    i < len,
                    n == self.num_tiles,
                    ng == self.groups@.len(),
                    i + 1 <= j <= len,
                    best_count > 0 ==> i < best < len && best_count == overlap_count(
                        self.sub_arrangements@[best as int].spec_mask(),
                        self.sub_arrangements@[i as int].spec_mask(),
                    ),
                    best_count == 0 ==> forall|j2: int| i < j2 < j ==> overlap_count(
                        #[trigger] self.sub_arrangements@[j2].spec_mask(),
                        self.sub_arrangements@[i as int].spec_mask(),
                    ) == 0,
                decreases len - j,
            {
                proof {
                    assert(self.sub_arrangements@[j as int].wf_in(n, ng));
                    assert(self.sub_arrangements@[i as int].wf_in(n, ng));
                }
                let c = self.sub_arrangements[j].mask.count_overlap_ones(&self.sub_arrangements[i].mask);
                if c >= best_count && c > 0 {
                    best = j;
                    best_count = c;
                }
                j = j + 1;
            }
            if best_count > 0 {
                let ghost s0 = self.sub_arrangements@;
                let mut cur = ArrangementSet::empty(self.num_tiles);
                self.sub_arrangements.set_and_swap(i, &mut cur);
                let ghost s1 = self.sub_arrangements@;
                let tmp = self.sub_arrangements.swap_remove(best);
                let ghost s2 = self.sub_arrangements@;
                proof {
                    assert(cur == s0[i as int]);
                    assert(tmp == s0[best as int]);
                    assert(cur.wf_in(n, ng) && tmp.wf_in(n, ng));
                    assert(Seq::new(cur.spec_mask().len(), |k: int| cur.spec_mask()[k] && tmp.spec_mask()[k]) =~= Seq::new(
                        tmp.spec_mask().len(), |k: int| tmp.spec_mask()[k] && cur.spec_mask()[k]));
                }
                let ghost cur0 = cur;
                let res = cur.try_merge(tmp, Ghost(ng), Ghost(sets_view(self.groups@)));
                let ghost cur1 = cur;
                self.sub_arrangements.set_and_swap(i, &mut cur);
                let ghost s3 = self.sub_arrangements@;
                proof {
                    assert(s3 == s2.update(i as int, cur1));
                    assert forall|k: int| 0 <= k < s3.len() implies (#[trigger] s3[k]).wf_in(n, ng) && subset(s3[k].spec_mask(), mask) by {
                        if k != i {
                            if k == best {
                                assert(s3[k] == s0[len - 1]);
                            } else {
                                assert(s3[k] == s0[k]);
                            }
                        } else {
                            assert(subset(cur0.spec_mask(), mask));
                            assert(subset(tmp.spec_mask(), mask));
                        }
                    }
                }
                proof {
                    if on_ok {
                        assert(on_groups(cur0, gs));
                        assert(on_groups(tmp, gs));
                        assert forall|k: int| 0 <= k < s3.len() implies on_groups(#[trigger] s3[k], gs) by {
                            if k != i {
                                if k == best {
                                    assert(s3[k] == s0[len - 1]);
                                } else {
                                    assert(s3[k] == s0[k]);
                                }
                            }
                        }
                        assert forall|a: int, b: int, t: int|
                            0 <= a < i && a < b < s3.len() && 0 <= t < n implies !(#[trigger] s3[a].spec_mask()[t]
                            && #[trigger] s3[b].spec_mask()[t]) by {
                            assert(s3[a] == s0[a]);
                            if b == i {
                                if s3[b].spec_mask()[t] {
                                    assert(or_seq(cur0.spec_mask(), tmp.spec_mask())[t]);
                                    assert(!(s0[a].spec_mask()[t] && s0[i as int].spec_mask()[t]));
                                    assert(!(s0[a].spec_mask()[t] && s0[best as int].spec_mask()[t]));
                                }
                            } else if b == best {
                                assert(s3[b] == s0[len - 1]);
                                assert(!(s0[a].spec_mask()[t] && s0[len - 1].spec_mask()[t]));
                            } else {
                                assert(s3[b] == s0[b]);
                                assert(!(s0[a].spec_mask()[t] && s0[b].spec_mask()[t]));
                            }
                        }
                        assert forall|p: Seq<bool>| p.len() == n && #[trigger] all_match(subs_init, p, gs) implies {
                            &&& has_match(cur1, p, gs)
                            &&& (res matches Err(o) ==> has_match(o, p, gs))
                            &&& forall|k: int| 0 <= k < s3.len() ==> has_match(#[trigger] s3[k], p, gs)
                        } by {
                            assert(all_match(s0, p, gs));
                            assert(has_match(s0[i as int], p, gs));
                            assert(has_match(s0[best as int], p, gs));
                            assert forall|k: int| 0 <= k < s3.len() implies has_match(#[trigger] s3[k], p, gs) by {
                                if k != i {
                                    if k == best {
                                        assert(s3[k] == s0[len - 1]);
                                    } else {
                                        assert(s3[k] == s0[k]);
                                    }
                                }
                            }
                        }
                    }
                }
                match res {
                    Ok(()) => {
                        proof {
                            assert(self.sub_arrangements@.len() < len);
                            assert(self.wf());
                            if on_ok {
                                assert forall|p: Seq<bool>| p.len() == n && #[trigger] all_match(subs_init, p, gs) implies all_match(
                                    s3,
                                    p,
                                    gs,
                                ) by {}
                                assert forall|p: Seq<bool>| p.len() == n && #[trigger] all_match(s3, p, gs) implies all_match(
                                    subs_init,
                                    p,
                                    gs,
                                ) by {
                                    assert(has_match(s3[i as int], p, gs));
                                    assert(has_match(cur0, p, gs) && has_match(tmp, p, gs));
                                    assert forall|k: int| 0 <= k < s0.len() implies has_match(#[trigger] s0[k], p, gs) by {
                                        if k == best {
                                        } else if k == len - 1 {
                                            assert(s3[best as int] == s0[len - 1]);
                                            assert(has_match(s3[best as int], p, gs));
                                        } else if k != i {
                                            assert(s3[k] == s0[k]);
                                            assert(has_match(s3[k], p, gs));
                                        }
                                    }
                                    assert(all_match(s0, p, gs));
                                }
                                if all_canonical(subs_init, gs) {
                                    assert(canonical_set(cur0, gs) && canonical_set(tmp, gs));
                                    assert forall|k: int| 0 <= k < s3.len() implies canonical_set(#[trigger] s3[k], gs) by {
                                        if k != i {
                                            if k == best {
                                                assert(s3[k] == s0[len - 1]);
                                            } else {
                                                assert(s3[k] == s0[k]);
                                            }
                                        }
                                    }
                                }
                            }
                        }
                    },
                    Err(o) => {
                        self.sub_arrangements.push(o);
                        proof {
                            let s4 = self.sub_arrangements@;
                            assert(s4 == s3.push(o));
                            assert forall|k: int| 0 <= k < s4.len() implies (#[trigger] s4[k]).wf_in(n, ng) && subset(s4[k].spec_mask(), mask) by {
                                if k < s3.len() {
                                    assert(s4[k] == s3[k]);
                                } else {
                                    assert(s4[k] == o);
                                    assert(subset(tmp.spec_mask(), mask));
                                }
                            }
                            // the regions lost tiles
                            let ph = s1[i as int];
                            crate::bits::lemma_true_count_zero(ph.spec_mask());
                            lemma_mask_total_update(s0, i as int, ph);
                            lemma_mask_total_swap_remove(s1, best as int);
                            assert(s2[i as int] == ph);
                            lemma_mask_total_update(s2, i as int, cur1);
                            assert(s4.drop_last() =~= s3);
                            assert(mask_total(s4) == mask_total(s3) + true_count(o.spec_mask()));
                            assert(mask_total(s4) < mask_total(s0));
                            if on_ok {
                                assert forall|k: int| 0 <= k < s4.len() implies on_groups(#[trigger] s4[k], gs) by {
                                    if k < s3.len() {
                                        assert(s4[k] == s3[k]);
                                    }
                                }
                                assert forall|a: int, b: int, t: int|
                                    0 <= a < i && a < b < s4.len() && 0 <= t < n implies !(#[trigger] s4[a].spec_mask()[t]
                                    && #[trigger] s4[b].spec_mask()[t]) by {
                                    assert(s4[a] == s3[a]);
                                    if b < s3.len() {
                                        assert(s4[b] == s3[b]);
                                    } else {
                                        assert(s4[b] == o);
                                        assert(s3[a] == s0[a]);
                                        if o.spec_mask()[t] {
                                            assert(tmp.spec_mask()[t]);
                                            assert(!(s0[a].spec_mask()[t] && s0[best as int].spec_mask()[t]));
                                        }
                                    }
                                }
                                assert forall|p: Seq<bool>| p.len() == n && #[trigger] all_match(subs_init, p, gs) implies all_match(
                                    s4,
                                    p,
                                    gs,
                                ) by {
                                    assert forall|k: int| 0 <= k < s4.len() implies has_match(#[trigger] s4[k], p, gs) by {
                                        if k < s3.len() {
                                            assert(s4[k] == s3[k]);
                                        } else {
                                            assert(s4[k] == o);
                                        }
                                    }
                                }
                                assert forall|p: Seq<bool>| p.len() == n && #[trigger] all_match(s4, p, gs) implies all_match(
                                    subs_init,
                                    p,
                                    gs,
                                ) by {
                                    assert(s4[i as int] == cur1);
                                    assert(has_match(s4[i as int], p, gs));
                                    assert(s4[s4.len() - 1] == o);
                                    assert(has_match(s4[s4.len() - 1], p, gs));
                                    assert(has_match(cur0, p, gs) && has_match(tmp, p, gs));
                                    assert forall|k: int| 0 <= k < s0.len() implies has_match(#[trigger] s0[k], p, gs) by {
                                        if k == best {
                                        } else if k == len - 1 {
                                            assert(s4[best as int] == s0[len - 1]);
                                            assert(has_match(s4[best as int], p, gs));
                                        } else if k != i {
                                            assert(s4[k] == s0[k]);
                                            assert(has_match(s4[k], p, gs));
                                        }
                                    }
                                    assert(all_match(s0, p, gs));
                                }
                                if all_canonical(subs_init, gs) {
                                    assert(canonical_set(cur0, gs) && canonical_set(tmp, gs));
                                    assert forall|k: int| 0 <= k < s4.len() implies canonical_set(#[trigger] s4[k], gs) by {
                                        if k == s4.len() - 1 {
                                            assert(s4[k] == o);
                                        } else if k != i {
                                            assert(s4[k] == s3[k]);
                                            if k == best {
                                                assert(s3[k] == s0[len - 1]);
                                            } else {
                                                assert(s3[k] == s0[k]);
                                            }
                                        } else {
                                            assert(s4[k] == cur1);
                                        }
                                    }
                                }
                            }
                        }
                    },
                }
            } else {
                proof {
                    if on_ok {
                        let s0 = self.sub_arrangements@;
                        assert forall|a: int, b: int, t: int|
                            0 <= a < i + 1 && a < b < s0.len() && 0 <= t < n implies !(#[trigger] s0[a].spec_mask()[t]
                            && #[trigger] s0[b].spec_mask()[t]) by {
                            if a == i {
                                let both = Seq::new(s0[b].spec_mask().len(), |q: int| s0[b].spec_mask()[q] && s0[a].spec_mask()[q]);
                                assert(overlap_count(s0[b].spec_mask(), s0[i as int].spec_mask()) == 0);
                                crate::bits::lemma_true_count_zero(both);
                                assert(s0[b].wf_in(n, ng));
                                s0[b].lemma_wf_in(n, ng);
                                assert(!both[t]);
                            }
                        }
                    }
                }
                i = i + 1;
            }
        }
    }
}


/// The views of a list of count lists.
pub open spec fn lists_view(v: Seq<Vec<usize>>) -> Seq<Seq<usize>> {
    Seq::new(v.len(), |j: int| v[j]@)
}

/// `cv` picks one entry of each list.
pub open spec fn choice_in(cv: Seq<usize>, lists: Seq<Seq<usize>>) -> bool {
    &&& cv.len() == lists.len()
    &&& forall|j: int| 0 <= j < cv.len() ==> #[trigger] lists[j].contains(cv[j])
}

/// Some arrangement of `sub` has `c` mines.
pub open spec fn achievable(sub: ArrangementSet, c: int) -> bool {
    exists|a: Seq<bool>| #[trigger] sub.spec_arrangements().contains(a) && true_count(a) == c
}

/// `cv` picks, for each region, a number of mines that one of its arrangements has.
pub open spec fn count_choice(cv: Seq<usize>, subs: Seq<ArrangementSet>) -> bool {
    &&& cv.len() == subs.len()
    &&& forall|j: int| 0 <= j < cv.len() ==> #[trigger] achievable(subs[j], cv[j] as int)
}

/// `cv` is a pick whose first entries are `chosen` and whose sum lies in `lo..=hi`, with
/// `c` picked for list `j`.
pub open spec fn valid_pick(cv: Seq<usize>, lists: Seq<Seq<usize>>, chosen: Seq<usize>, j: int, c: int, lo: nat, hi: nat) -> bool {
    &&& choice_in(cv, lists)
    &&& cv.take(chosen.len() as int) == chosen
    &&& cv[j] == c
    &&& lo <= total(cv) <= hi
}

/// Marks in `valid[j]` every count `c` that some pick extending `chosen` with a sum in
/// `lo..=hi` has for list `j`. `sum` is the sum of `chosen`, `None` past `usize::MAX`.
fn mark_valid_counts(
    lists: &Vec<Vec<usize>>,
    valid: &mut Vec<BitSet>,
    chosen: &mut Vec<usize>,
    sum: Option<usize>,
    lo: usize,
    hi: usize,
    Ghost(n): Ghost<nat>,
)
    requires
        old(valid)@.len() == lists@.len(),
        forall|j: int| 0 <= j < old(valid)@.len() ==> (#[trigger] old(valid)@[j]).wf() && old(valid)@[j]@.len() == n,
        forall|j: int, i: int| 0 <= j < lists@.len() && 0 <= i < lists@[j]@.len() ==> #[trigger] lists@[j]@[i] < n,
        old(chosen)@.len() <= lists@.len(),
        forall|j: int| 0 <= j < old(chosen)@.len() ==> #[trigger] lists@[j]@.contains(old(chosen)@[j]),
        match sum {
            Some(v) => v == total(old(chosen)@),
            None => total(old(chosen)@) > usize::MAX,
        },
    ensures
        final(chosen)@ == old(chosen)@,
        final(valid)@.len() == old(valid)@.len(),
        forall|j: int| 0 <= j < final(valid)@.len() ==> (#[trigger] final(valid)@[j]).wf() && final(valid)@[j]@.len() == n,
        forall|j: int, c: int| 0 <= j < lists@.len() && 0 <= c < n ==> #[trigger] final(valid)@[j]@[c] == (old(valid)@[j]@[c]
            || exists|cv: Seq<usize>| #[trigger] valid_pick(cv, lists_view(lists@), old(chosen)@, j, c, lo as nat, hi as nat)),
    decreases lists@.len() - old(chosen)@.len(),
{
    let ghost lv = lists_view(lists@);
    let ghost ch0 = chosen@;
    let ghost v0 = valid@;
    let k = chosen.len();
    if k == lists.len() {
        let in_range = match sum {
            Some(v) => lo <= v && v <= hi,
            None => false,
        };
        if in_range {
            let mut j: usize = 0;
            while j < k
                invariant
                    k == lists@.len(),
                    chosen@ == ch0,
                    ch0.len() == k,
                    valid@.len() == k,
                    v0.len() == k,
                    j <= k,
                    forall|j: int, i: int| 0 <= j < lists@.len() && 0 <= i < lists@[j]@.len() ==> #[trigger] lists@[j]@[i] < n,
                    forall|j: int| 0 <= j < ch0.len() ==> #[trigger] lists@[j]@.contains(ch0[j]),
                    forall|m: int| 0 <= m < k ==> (#[trigger] valid@[m]).wf() && valid@[m]@.len() == n,
                    forall|m: int, c: int| 0 <= m < k && 0 <= c < n ==> #[trigger] valid@[m]@[c] == (v0[m]@[c] || (m < j
                        && ch0[m] == c)),
                decreases k - j,
            {
                let ghost j0 = j as int;
                assert(lists@[j0]@.contains(ch0[j0]));
                let mut b = valid[j].clone();
                b.set_to_one(chosen[j]);
                valid.set(j, b);
                j = j + 1;
            }
        }
        proof {
            assert forall|j: int, c: int| 0 <= j < lists@.len() && 0 <= c < n implies #[trigger] valid@[j]@[c] == (v0[j]@[c]
                || exists|cv: Seq<usize>| #[trigger] valid_pick(cv, lv, ch0, j, c, lo as nat, hi as nat)) by {
                if exists|cv: Seq<usize>| #[trigger] valid_pick(cv, lv, ch0, j, c, lo as nat, hi as nat) {
                    let cv = choose|cv: Seq<usize>| #[trigger] valid_pick(cv, lv, ch0, j, c, lo as nat, hi as nat);
                    assert(cv =~= cv.take(k as int));
                }
                if in_range && ch0[j] == c {
                    assert(choice_in(ch0, lv)) by {
                        assert forall|m: int| 0 <= m < ch0.len() implies #[trigger] lv[m].contains(ch0[m]) by {
                            assert(lists@[m]@.contains(ch0[m]));
                        }
                    }
                    assert(ch0.take(k as int) =~= ch0);
                    assert(valid_pick(ch0, lv, ch0, j, c, lo as nat, hi as nat));
                }
            }
        }
        return;
    }
    let mut e: usize = 0;
    while e < lists[k].len()
        invariant
            k < lists@.len(),
            chosen@ == ch0,
            ch0 == old(chosen)@,
            ch0.len() == k,
            lv == lists_view(lists@),
            valid@.len() == lists@.len(),
            v0.len() == lists@.len(),
            e <= lists@[k as int]@.len(),
            forall|j: int, i: int| 0 <= j < lists@.len() && 0 <= i < lists@[j]@.len() ==> #[trigger] lists@[j]@[i] < n,
            forall|j: int| 0 <= j < ch0.len() ==> #[trigger] lists@[j]@.contains(ch0[j]),
            match sum {
                Some(v) => v == total(ch0),
                None => total(ch0) > usize::MAX,
            },
            forall|m: int| 0 <= m < valid@.len() ==> (#[trigger] valid@[m]).wf() && valid@[m]@.len() == n,
            forall|j: int, c: int| 0 <= j < lists@.len() && 0 <= c < n ==> #[trigger] valid@[j]@[c] == (v0[j]@[c]
                || exists|cv: Seq<usize>| #[trigger] valid_pick(cv, lv, ch0, j, c, lo as nat, hi as nat)
                    && lists@[k as int]@.take(e as int).contains(cv[k as int])),
        decreases lists@[k as int]@.len() - e,
    {
        let c = lists[k][e];
        let ghost vb = valid@;
        let next_sum = match sum {
            Some(v) => v.checked_add(c),
            None => None,
        };
        chosen.push(c);
        proof {
            assert(chosen@.drop_last() == ch0);
            crate::combinations::lemma_psum_tail_eq(chosen@, ch0, 0, k as int);
            assert(total(chosen@) == total(ch0) + c);
            assert forall|j: int| 0 <= j < chosen@.len() implies #[trigger] lists@[j]@.contains(chosen@[j]) by {
                if j == k {
                    assert(lists@[k as int]@[e as int] == c);
                } else {
                    assert(chosen@[j] == ch0[j]);
                }
            }
        }
        mark_valid_counts(lists, valid, chosen, next_sum, lo, hi, Ghost(n));
        let ghost ch1 = chosen@;
        chosen.pop();
        proof {
            assert(chosen@ =~= ch0);
            assert forall|j: int, c2: int| 0 <= j < lists@.len() && 0 <= c2 < n implies #[trigger] valid@[j]@[c2] == (v0[j]@[c2]
                || exists|cv: Seq<usize>| #[trigger] valid_pick(cv, lv, ch0, j, c2, lo as nat, hi as nat)
                    && lists@[k as int]@.take(e + 1).contains(cv[k as int])) by {
                let pre = lists@[k as int]@.take(e as int);
                let pre1 = lists@[k as int]@.take(e + 1);
                assert(pre1 =~= pre.push(c));
                if exists|cv: Seq<usize>| #[trigger] valid_pick(cv, lv, ch1, j, c2, lo as nat, hi as nat) {
                    let cv = choose|cv: Seq<usize>| #[trigger] valid_pick(cv, lv, ch1, j, c2, lo as nat, hi as nat);
                    assert(cv.take(k as int) =~= ch0) by {
                        assert(cv.take(k as int) =~= cv.take(k + 1).take(k as int));
                    }
                    assert(cv[k as int] == c) by {
                        assert(cv.take(k + 1)[k as int] == ch1[k as int]);
                    }
                    assert(pre1[e as int] == c);
                    assert(valid_pick(cv, lv, ch0, j, c2, lo as nat, hi as nat) && pre1.contains(cv[k as int]));
                }
                if exists|cv: Seq<usize>| #[trigger] valid_pick(cv, lv, ch0, j, c2, lo as nat, hi as nat) && pre1.contains(cv[k as int]) {
                    let cv = choose|cv: Seq<usize>| #[trigger] valid_pick(cv, lv, ch0, j, c2, lo as nat, hi as nat) && pre1.contains(cv[k as int]);
                    let i = choose|i: int| 0 <= i < pre1.len() && pre1[i] == cv[k as int];
                    if i < e {
                        assert(pre[i] == cv[k as int]);
                        assert(pre.contains(cv[k as int]));
                    } else {
                        assert(cv[k as int] == c);
                        assert(cv.take(k + 1) =~= ch1) by {
                            assert forall|m: int| 0 <= m < k + 1 implies cv.take(k + 1)[m] == ch1[m] by {
                                if m < k {
                                    assert(cv.take(k as int)[m] == ch0[m]);
                                }
                            }
                        }
                        assert(valid_pick(cv, lv, ch1, j, c2, lo as nat, hi as nat));
                    }
                }
                if exists|cv: Seq<usize>| #[trigger] valid_pick(cv, lv, ch0, j, c2, lo as nat, hi as nat) && pre.contains(cv[k as int]) {
                    let cv = choose|cv: Seq<usize>| #[trigger] valid_pick(cv, lv, ch0, j, c2, lo as nat, hi as nat) && pre.contains(cv[k as int]);
                    let i = choose|i: int| 0 <= i < pre.len() && pre[i] == cv[k as int];
                    assert(pre1[i] == cv[k as int]);
                }
            }
        }
        e = e + 1;
    }
    proof {
        assert forall|j: int, c: int| 0 <= j < lists@.len() && 0 <= c < n implies #[trigger] valid@[j]@[c] == (v0[j]@[c]
            || exists|cv: Seq<usize>| #[trigger] valid_pick(cv, lv, ch0, j, c, lo as nat, hi as nat)) by {
            assert(lists@[k as int]@.take(lists@[k as int]@.len() as int) =~= lists@[k as int]@);
            if exists|cv: Seq<usize>| #[trigger] valid_pick(cv, lv, ch0, j, c, lo as nat, hi as nat) {
                let cv = choose|cv: Seq<usize>| #[trigger] valid_pick(cv, lv, ch0, j, c, lo as nat, hi as nat);
                assert(lv[k as int].contains(cv[k as int]));
                assert(lv[k as int] == lists@[k as int]@);
            }
        }
    }
}


impl MineArrangements {
    /// The fewest and the most mines that the regions may hold together: the remaining mines,
    /// less what the tiles outside every region can take.
    pub open spec fn spec_count_range(&self) -> (nat, nat) {
        let unc = true_count(self.spec_unconstrained());
        (
            if self.spec_remaining_mines() >= unc { (self.spec_remaining_mines() - unc) as nat } else { 0 },
            self.spec_remaining_mines(),
        )
    }

    /// The arrangements that match an admitted placement have counts that some total allows:
    /// dropping the others keeps them.
    proof fn lemma_filter_keeps_match(old_ma: MineArrangements, new_ma: MineArrangements, p: Seq<bool>)
        requires
            old_ma.wf(),
            old_ma.exact(),
            old_ma.admits(p),
            new_ma.spec_subs().len() == old_ma.spec_subs().len(),
            new_ma.spec_groups() == old_ma.spec_groups(),
            forall|k: int| 0 <= k < new_ma.spec_subs().len() ==> (#[trigger] new_ma.spec_subs()[k]).spec_groups()
                == old_ma.spec_subs()[k].spec_groups(),
            forall|k: int, x: Seq<bool>| 0 <= k < new_ma.spec_subs().len() ==> (#[trigger] new_ma.spec_subs()[k].spec_arrangements().contains(x)
                <==> old_ma.spec_subs()[k].spec_arrangements().contains(x) && exists|cv: Seq<usize>|
                    #[trigger] count_choice(cv, old_ma.spec_subs()) && cv[k] == true_count(x) && old_ma.spec_count_range().0
                        <= total(cv) <= old_ma.spec_count_range().1),
        ensures
            all_match(new_ma.spec_subs(), p, new_ma.spec_groups()),
    {
        let n = old_ma.spec_num_tiles();
        let gs = old_ma.spec_groups();
        let subs = old_ma.spec_subs();
        let len = subs.len();
        old_ma.lemma_wf();
        let pick = |k: int| choose|a: Seq<bool>| #[trigger] subs[k].spec_arrangements().contains(a) && matches_on(
            a,
            p,
            gs,
            subs[k].spec_groups(),
        );
        let masks = Seq::new(len, |k: int| subs[k].spec_mask());
        let cv = Seq::new(len, |k: int| true_count(pick(k)) as usize);
        assert forall|k: int| 0 <= k < len implies {
            &&& #[trigger] subs[k].spec_arrangements().contains(pick(k))
            &&& matches_on(pick(k), p, gs, subs[k].spec_groups())
            &&& cv[k] == true_count(pick(k))
            &&& cv[k] == overlap_count(p, masks[k])
            &&& masks[k].len() == n
        } by {
            assert(has_match(subs[k], p, gs));
            let a = pick(k);
            subs[k].lemma_wf_in(n, gs.len());
            let ka = choose|ka: int| 0 <= ka < subs[k].spec_arrangements().len() && subs[k].spec_arrangements()[ka] == a;
            assert(a.len() == n && subset(a, subs[k].spec_mask()));
            assert(Seq::new(a.len(), |i: int| a[i] && subs[k].spec_mask()[i]) =~= a);
            assert(on_groups(subs[k], gs));
            crate::placements::lemma_match_region_count(a, p, gs, subs[k].spec_groups(), subs[k].spec_groups());
            crate::bits::lemma_true_count_le(a);
        }
        crate::placements::lemma_union_sum(p, masks, cv, n, len as int);
        assert(masks.take(len as int) =~= masks);
        let u = union_seq(masks, n);
        let unc = old_ma.spec_unconstrained();
        assert(Seq::new(old_ma.sub_arrangements@.len(), |k: int| old_ma.sub_arrangements@[k].mask@) =~= masks);
        assert(unc =~= minus_all(old_ma.spec_mask(), masks));
        assert(old_ma.spec_mask() =~= or_seq(u, unc)) by {
            assert forall|t: int| 0 <= t < n implies old_ma.spec_mask()[t] == (u[t] || unc[t]) by {
                if u[t] {
                    let k = choose|k: int| 0 <= k < masks.len() && #[trigger] masks[k][t];
                    assert(subset(subs[k].spec_mask(), old_ma.spec_mask()));
                }
            }
        }
        assert forall|t: int| 0 <= t < n implies !(#[trigger] u[t] && unc[t]) by {
            if u[t] {
                let k = choose|k: int| 0 <= k < masks.len() && #[trigger] masks[k][t];
            }
        }
        crate::placements::lemma_overlap_or(p, u, unc);
        assert(Seq::new(p.len(), |i: int| p[i] && old_ma.spec_mask()[i]) =~= p);
        crate::placements::lemma_overlap_le(p, unc);
        assert(old_ma.spec_count_range().0 <= total(cv) <= old_ma.spec_count_range().1);
        assert(count_choice(cv, subs)) by {
            assert forall|j: int| 0 <= j < cv.len() implies #[trigger] achievable(subs[j], cv[j] as int) by {
                assert(subs[j].spec_arrangements().contains(pick(j)));
            }
        }
        assert forall|k: int| 0 <= k < new_ma.spec_subs().len() implies has_match(#[trigger] new_ma.spec_subs()[k], p, new_ma.spec_groups()) by {
            assert(subs[k].spec_arrangements().contains(pick(k)));
            assert(new_ma.spec_subs()[k].spec_arrangements().contains(pick(k)));
        }
    }

    /// Drops every arrangement whose number of mines no choice of numbers for all regions,
    /// one arrangement's count per region, with a total in `spec_count_range` allows.
    #[verifier::spinoff_prover]
    #[verifier::rlimit(40)]
    fn filter_summaries(&mut self)
        requires
            old(self).wf(),
        ensures
            final(self).wf(),
            final(self).spec_mask() == old(self).spec_mask(),
            final(self).spec_groups() == old(self).spec_groups(),
            final(self).spec_num_tiles() == old(self).spec_num_tiles(),
            final(self).spec_remaining_mines() == old(self).spec_remaining_mines(),
            final(self).spec_subs().len() == old(self).spec_subs().len(),
            forall|k: int| 0 <= k < final(self).spec_subs().len() ==> {
                &&& (#[trigger] final(self).spec_subs()[k]).spec_mask() == old(self).spec_subs()[k].spec_mask()
                &&& final(self).spec_subs()[k].spec_groups() == old(self).spec_subs()[k].spec_groups()
            },
            forall|k: int, x: Seq<bool>| 0 <= k < final(self).spec_subs().len() ==> (#[trigger] final(self).spec_subs()[k].spec_arrangements().contains(x)
                <==> old(self).spec_subs()[k].spec_arrangements().contains(x) && exists|cv: Seq<usize>|
                    #[trigger] count_choice(cv, old(self).spec_subs()) && cv[k] == true_count(x) && old(self).spec_count_range().0
                        <= total(cv) <= old(self).spec_count_range().1),
    {
        let ghost n = self.num_tiles as nat;
        let ghost ng = self.groups@.len() as nat;
        let ghost subs0 = self.sub_arrangements@;
        let ghost old_range = self.spec_count_range();
        let unc = self.uncontrained_empties().count_ones();
        let lo = self.remaining_mines.saturating_sub(unc);
        let hi = self.remaining_mines;
        let m = self.sub_arrangements.len();
        let mut valid: Vec<BitSet> = Vec::new();
        let mut lists: Vec<Vec<usize>> = Vec::new();
        let mut k: usize = 0;
        while k < m
            invariant
                self.wf(),
                self.sub_arrangements@ == subs0,
                n == self.num_tiles,
                ng == self.groups@.len(),
                m == subs0.len(),
                k <= m,
                valid@.len() == k,
                lists@.len() == k,
                forall|j: int| 0 <= j < k ==> (#[trigger] valid@[j]).wf() && valid@[j]@ == Seq::new(n, |i: int| false),
                forall|j: int, i: int| 0 <= j < k && 0 <= i < lists@[j]@.len() ==> #[trigger] lists@[j]@[i] < n,
                forall|j: int, c: usize| 0 <= j < k ==> (#[trigger] lists@[j]@.contains(c) <==> c < n
                    && achievable(subs0[j], c as int)),
            decreases m - k,
        {
            proof {
                assert(subs0[k as int].wf_in(n, ng));
                lemma_true_count_subset(subs0[k as int].spec_mask(), self.mask@);
                crate::bitset::lemma_storage_covers(&self.mask);
            }
            let summary = self.sub_arrangements[k].summarize(Ghost(ng));
            let counts = summary.iter_ones();
            proof {
                crate::bitset::lemma_storage_covers(&summary);
                lemma_ones_of(summary@);
            }
            lists.push(counts);
            valid.push(BitSet::zeros(self.num_tiles));
            proof {
                assert forall|j: int, c: usize| 0 <= j < k + 1 implies (#[trigger] lists@[j]@.contains(c) <==> c < n
                    && achievable(subs0[j], c as int)) by {
                    if j == k {
                        if lists@[j]@.contains(c) {
                            let i = choose|i: int| 0 <= i < lists@[j]@.len() && lists@[j]@[i] == c;
                            assert(counts@[i] < n && summary@[counts@[i] as int]);
                        }
                        if c < n && achievable(subs0[j], c as int) {
                            assert(summary@[c as int]);
                        }
                    }
                }
            }
            k = k + 1;
        }
        let mut chosen: Vec<usize> = Vec::new();
        proof {
            assert(total(chosen@) == 0);
        }
        mark_valid_counts(&lists, &mut valid, &mut chosen, Some(0), lo, hi, Ghost(n));
        let ghost lv = lists_view(lists@);
        proof {
            // a pick of listed counts is a pick of achievable counts, and back
            assert forall|cv: Seq<usize>| #[trigger] choice_in(cv, lv) <==> count_choice(cv, subs0) && forall|j: int|
                0 <= j < cv.len() ==> cv[j] < n by {
                if choice_in(cv, lv) {
                    assert forall|j: int| 0 <= j < cv.len() implies #[trigger] achievable(subs0[j], cv[j] as int) by {
                        assert(lv[j].contains(cv[j]));
                        assert(lists@[j]@.contains((cv[j] as int) as usize));
                    }
                    assert forall|j: int| 0 <= j < cv.len() implies cv[j] < n by {
                        assert(lv[j].contains(cv[j]));
                        assert(lists@[j]@.contains((cv[j] as int) as usize));
                    }
                }
                if count_choice(cv, subs0) && forall|j: int| 0 <= j < cv.len() ==> cv[j] < n {
                    assert forall|j: int| 0 <= j < cv.len() implies #[trigger] lv[j].contains(cv[j]) by {
                        assert(achievable(subs0[j], cv[j] as int));
                        assert(lists@[j]@.contains(cv[j]));
                    }
                }
            }
        }
        let mut k: usize = 0;
        while k < m
            invariant
                self.wf(),
                n == self.num_tiles,
                ng == self.groups@.len(),
                m == subs0.len(),
                self.sub_arrangements@.len() == m,
                self.mask == old(self).mask,
                self.groups == old(self).groups,
                self.num_tiles == old(self).num_tiles,
                self.remaining_mines == old(self).remaining_mines,
                k <= m,
                valid@.len() == m,
                forall|j: int| 0 <= j < m ==> (#[trigger] valid@[j]).wf() && valid@[j]@.len() == n,
                forall|j: int| k <= j < m ==> #[trigger] self.sub_arrangements@[j] == subs0[j],
                forall|j: int| 0 <= j < k ==> {
                    &&& (#[trigger] self.sub_arrangements@[j]).spec_mask() == subs0[j].spec_mask()
                    &&& self.sub_arrangements@[j].spec_groups() == subs0[j].spec_groups()
                },
                forall|j: int, x: Seq<bool>| 0 <= j < k ==> (#[trigger] self.sub_arrangements@[j].spec_arrangements().contains(x)
                    <==> subs0[j].spec_arrangements().contains(x) && valid@[j]@[true_count(x) as int]),
            decreases m - k,
        {
            let ghost sb = self.sub_arrangements@;
            let mut cur = ArrangementSet::empty(self.num_tiles);
            self.sub_arrangements.set_and_swap(k, &mut cur);
            proof {
                assert(cur == subs0[k as int]);
                assert(cur.wf_in(n, ng));
                lemma_true_count_subset(cur.spec_mask(), self.mask@);
            }
            cur.retain_with_summary(&valid[k], Ghost(ng));
            let ghost cur1 = cur;
            self.sub_arrangements.set_and_swap(k, &mut cur);
            proof {
                assert(self.sub_arrangements@ == sb.update(k as int, cur1));
                assert forall|j: int| 0 <= j < self.sub_arrangements@.len() implies (#[trigger] self.sub_arrangements@[j]).wf_in(
                    n, ng) && subset(self.sub_arrangements@[j].spec_mask(), self.mask@) by {
                    if j != k {
                        assert(self.sub_arrangements@[j] == sb[j]);
                    } else {
                        assert(subset(subs0[k as int].spec_mask(), self.mask@));
                    }
                }
            }
            k = k + 1;
        }
        proof {
            assert forall|k: int, x: Seq<bool>| 0 <= k < m implies (#[trigger] self.spec_subs()[k].spec_arrangements().contains(x)
                <==> subs0[k].spec_arrangements().contains(x) && exists|cv: Seq<usize>|
                    #[trigger] count_choice(cv, subs0) && cv[k] == true_count(x) && old_range.0 <= total(cv) <= old_range.1) by {
                if subs0[k].spec_arrangements().contains(x) {
                    assert(subs0[k].wf_in(n, ng));
                    let i = choose|i: int| 0 <= i < subs0[k].spec_arrangements().len() && subs0[k].spec_arrangements()[i] == x;
                    lemma_true_count_subset(x, subs0[k].spec_mask());
                    lemma_true_count_subset(subs0[k].spec_mask(), self.mask@);
                    let c = true_count(x) as int;
                    if valid@[k]@[c] {
                        let cv = choose|cv: Seq<usize>| #[trigger] valid_pick(cv, lv, Seq::<usize>::empty(), k, c, lo as nat, hi as nat);
                        assert(count_choice(cv, subs0));
                    }
                    if exists|cv: Seq<usize>| #[trigger] count_choice(cv, subs0) && cv[k] == true_count(x) && old_range.0 <= total(cv) <= old_range.1 {
                        let cv = choose|cv: Seq<usize>| #[trigger] count_choice(cv, subs0) && cv[k] == true_count(x) && old_range.0 <= total(cv) <= old_range.1;
                        assert forall|j: int| 0 <= j < cv.len() implies cv[j] < n by {
                            assert(achievable(subs0[j], cv[j] as int));
                            let a = choose|a: Seq<bool>| #[trigger] subs0[j].spec_arrangements().contains(a) && true_count(a) == cv[j] as int;
                            assert(subs0[j].wf_in(n, ng));
                            let i2 = choose|i2: int| 0 <= i2 < subs0[j].spec_arrangements().len() && subs0[j].spec_arrangements()[i2] == a;
                            lemma_true_count_subset(a, subs0[j].spec_mask());
                            lemma_true_count_subset(subs0[j].spec_mask(), self.mask@);
                        }
                        assert(cv.take(0) =~= Seq::<usize>::empty());
                        assert(valid_pick(cv, lv, Seq::<usize>::empty(), k, c, lo as nat, hi as nat));
                    }
                }
            }
            assert(subs0 == old(self).spec_subs());
            assert(old_range == old(self).spec_count_range());
            assert(m == self.spec_subs().len());
        }
    }
}


// ---------------------------------------------------------------------------------------------
// From a board to its arrangements

/// A hint with undecided neighbours.
pub open spec fn hint_with_empties(t: Tile) -> bool {
    t matches Tile::Hint { empties, .. } && empties >= 1
}

/// Tile `t`, of old number `old[t]`, has the new number that the table gives that old number,
/// recorded in round `round`, and the new number is at least `low`.
spec fn split_to(ids: Seq<usize>, old: Seq<usize>, table: Seq<(usize, usize)>, round: int, low: int, t: int) -> bool {
    &&& old[t] < table.len()
    &&& table[old[t] as int].1 == round
    &&& ids[t] == table[old[t] as int].0
    &&& low <= ids[t]
}

/// No tile is listed twice among the neighbours of a tile.
pub open spec fn distinct_neighbors<G: Graph>(graph: G) -> bool {
    forall|h: int| 0 <= h < graph.spec_num_tiles() ==> (#[trigger] graph.spec_neighbors(h)).no_duplicates()
}

/// The hints with undecided neighbours among the first `upto` tiles that list `a` as a
/// neighbour are those that list `b`.
pub open spec fn same_hints<G: Graph>(grid: Seq<Tile>, graph: G, a: int, b: int, upto: int) -> bool {
    forall|h: int|
        0 <= h < upto && #[trigger] hint_with_empties(grid[h]) ==> (graph.spec_neighbors(h).contains(a as usize)
            == graph.spec_neighbors(h).contains(b as usize))
}

/// The number a tile had before the current hint renumbered it: numbers from `m0` on are new,
/// and `org` gives the number they were split from.
spec fn origin_of(org: spec_fn(int) -> int, m0: int, x: int) -> int {
    if x < m0 {
        x
    } else {
        org(x)
    }
}

proof fn lemma_same_hints_step<G: Graph>(grid: Seq<Tile>, graph: G, a: int, b: int, i: int)
    requires
        0 <= i,
    ensures
        same_hints(grid, graph, a, b, i + 1) == (same_hints(grid, graph, a, b, i) && (hint_with_empties(grid[i])
            ==> (graph.spec_neighbors(i).contains(a as usize) == graph.spec_neighbors(i).contains(b as usize)))),
{
    if same_hints(grid, graph, a, b, i) && (hint_with_empties(grid[i]) ==> (graph.spec_neighbors(i).contains(a as usize)
        == graph.spec_neighbors(i).contains(b as usize))) {
        assert forall|h: int| 0 <= h < i + 1 && #[trigger] hint_with_empties(grid[h]) implies (graph.spec_neighbors(
            h,
        ).contains(a as usize) == graph.spec_neighbors(h).contains(b as usize)) by {}
    }
}

/// Tile `t` is undecided and a neighbour of a hint with undecided neighbours.
pub open spec fn constrained<G: Graph>(grid: Seq<Tile>, graph: G, t: int) -> bool {
    &&& grid[t] is Empty
    &&& exists|h: int|
        0 <= h < grid.len() && #[trigger] hint_with_empties(grid[h]) && graph.spec_neighbors(h).contains(t as usize)
}

/// The undecided tiles.
pub open spec fn empties_of(grid: Seq<Tile>) -> Seq<bool> {
    Seq::new(grid.len(), |i: int| grid[i] is Empty)
}

/// The tiles known to hold mines.
pub open spec fn mines_of(grid: Seq<Tile>) -> Seq<bool> {
    Seq::new(grid.len(), |i: int| grid[i] is Mine)
}

impl<G: Graph> Board<G> {
    /// The undecided tiles.
    pub fn all_empties(&self) -> (r: BitSet)
        requires
            self.wf(),
            len_fits(self.grid@.len()),
        ensures
            r.wf(),
            r@ == empties_of(self.grid@),
    {
        let n = self.num_tiles();
        let mut out = BitSet::zeros(n);
        let mut i: usize = 0;
        while i < self.grid.len()
            invariant
                self.wf(),
                n == self.grid@.len(),
                out.wf(),
                out@.len() == n,
                i <= n,
                forall|t: int| 0 <= t < n ==> #[trigger] out@[t] == (t < i && self.grid@[t] is Empty),
            decreases self.grid.len() - i,
        {
            if let Tile::Empty = self.grid[i] {
                out.set_to_one(i);
            }
            i = i + 1;
        }
        assert(out@ =~= empties_of(self.grid@));
        out
    }

    /// The tiles known to hold mines.
    pub fn known_mines(&self) -> (r: BitSet)
        requires
            self.wf(),
            len_fits(self.grid@.len()),
        ensures
            r.wf(),
            r@ == mines_of(self.grid@),
    {
        let n = self.num_tiles();
        let mut out = BitSet::zeros(n);
        let mut i: usize = 0;
        while i < self.grid.len()
            invariant
                self.wf(),
                n == self.grid@.len(),
                out.wf(),
                out@.len() == n,
                i <= n,
                forall|t: int| 0 <= t < n ==> #[trigger] out@[t] == (t < i && self.grid@[t] is Mine),
            decreases self.grid.len() - i,
        {
            if let Tile::Mine { .. } = self.grid[i] {
                out.set_to_one(i);
            }
            i = i + 1;
        }
        assert(out@ =~= mines_of(self.grid@));
        out
    }

    /// Numbers the undecided tiles next to hints with undecided neighbours, from 1 up, so that
    /// tiles constrained by the same hints share a number; every other tile gets 0. Undecided
    /// tiles that share a number are constrained by the same hints; when no neighbour list
    /// repeats a tile, the converse holds too (a tile listed twice by a hint gets a number of its
    /// own).
    #[verifier::spinoff_prover]
    #[verifier::rlimit(60)]
    fn cell_groups(&self) -> (r: Vec<usize>)
        requires
            self.wf(),
            degrees_fit(self.graph),
            self.grid@.len() * 256 + 1 <= usize::MAX,
        ensures
            r@.len() == self.grid@.len(),
            forall|t: int| 0 <= t < r@.len() ==> (#[trigger] r@[t] > 0) == constrained(self.grid@, self.graph, t),
            forall|t: int| 0 <= t < r@.len() ==> #[trigger] r@[t] <= self.grid@.len(),
            forall|t: int| 0 <= t < r@.len() ==> #[trigger] r@[t] <= prefix_max(r@, t) + 1,
            forall|a: int, b: int|
                0 <= a < r@.len() && 0 <= b < r@.len() && self.grid@[a] is Empty && self.grid@[b] is Empty
                    && #[trigger] r@[a] == #[trigger] r@[b] ==> same_hints(self.grid@, self.graph, a, b, r@.len() as int),
            distinct_neighbors(self.graph) ==> forall|a: int, b: int|
                0 <= a < r@.len() && 0 <= b < r@.len() && self.grid@[a] is Empty && self.grid@[b] is Empty ==> ((
                #[trigger] r@[a] == #[trigger] r@[b]) <==> same_hints(self.grid@, self.graph, a, b, r@.len() as int)),
    {
        let n = self.grid.len();
        let ghost grid = self.grid@;
        let ghost nd = distinct_neighbors(self.graph);
        let mut mapping: Vec<(usize, usize)> = Vec::new();
        let mut group_ids: Vec<usize> = Vec::new();
        let mut k: usize = 0;
        while k < n
            invariant
                k <= n,
                mapping@.len() == k,
                group_ids@.len() == k,
                forall|x: int| 0 <= x < k ==> #[trigger] mapping@[x] == (0usize, 0usize),
                forall|x: int| 0 <= x < k ==> #[trigger] group_ids@[x] == 0,
            decreases n - k,
        {
            mapping.push((0, 0));
            group_ids.push(0);
            k = k + 1;
        }
        let mut max_group: usize = 1;
        let mut i: usize = 0;
        while i < n
            invariant
                self.wf(),
                degrees_fit(self.graph),
                n * 256 + 1 <= usize::MAX,
                grid == self.grid@,
                nd == distinct_neighbors(self.graph),
                n == grid.len(),
                i <= n,
                group_ids@.len() == n,
                1 <= max_group <= 1 + 255 * i,
                forall|x: int| 0 <= x < mapping@.len() ==> (#[trigger] mapping@[x]).1 <= i && mapping@[x].0 < max_group
                    && (mapping@[x].1 > 0 ==> mapping@[x].0 >= 1),
                forall|t: int| 0 <= t < n ==> #[trigger] group_ids@[t] < max_group,
                forall|t: int| 0 <= t < n ==> (#[trigger] group_ids@[t] > 0) == (grid[t] is Empty && exists|h: int|
                    0 <= h < i && #[trigger] hint_with_empties(grid[h]) && self.graph.spec_neighbors(h).contains(t as usize)),
                nd ==> forall|a: int, b: int|
                    0 <= a < n && 0 <= b < n && grid[a] is Empty && grid[b] is Empty ==> ((#[trigger] group_ids@[a]
                        == #[trigger] group_ids@[b]) <==> same_hints(grid, self.graph, a, b, i as int)),
                forall|a: int, b: int|
                    0 <= a < n && 0 <= b < n && grid[a] is Empty && grid[b] is Empty && #[trigger] group_ids@[a]
                        == #[trigger] group_ids@[b] ==> same_hints(grid, self.graph, a, b, i as int),
                forall|x: int| max_group <= x < mapping@.len() ==> #[trigger] mapping@[x] == (0usize, 0usize),
            decreases n - i,
        {
            let qualifies = match self.grid[i] {
                Tile::Hint { empties, .. } => empties >= 1,
                _ => false,
            };
            if qualifies {
                let nbrs = self.neighbors(i);
                proof {
                    self.graph.lemma_neighbors_in_range(i as int);
                    assert(nbrs@.len() <= 255);
                }
                let ghost b0 = group_ids@;
                let ghost m0 = max_group;
                let ghost mut org: spec_fn(int) -> int = |g: int| 0int;
                let mut q: usize = 0;
                while q < nbrs.len()
                    invariant
                        self.wf(),
                        n * 256 + 1 <= usize::MAX,
                        grid == self.grid@,
                        nd == distinct_neighbors(self.graph),
                        n == grid.len(),
                        i < n,
                        hint_with_empties(grid[i as int]),
                        nbrs@ == self.graph.spec_neighbors(i as int),
                        nbrs@.len() <= 255,
                        forall|m: int| 0 <= m < nbrs@.len() ==> #[trigger] nbrs@[m] < n,
                        q <= nbrs@.len(),
                        group_ids@.len() == n,
                        b0.len() == n,
                        1 <= m0 <= max_group <= 1 + 255 * i + q,
                        forall|t: int| 0 <= t < n ==> #[trigger] b0[t] < m0,
                        nd ==> forall|a: int, b: int|
                            0 <= a < n && 0 <= b < n && grid[a] is Empty && grid[b] is Empty ==> ((#[trigger] b0[a]
                                == #[trigger] b0[b]) <==> same_hints(grid, self.graph, a, b, i as int)),
                        forall|x: int| 0 <= x < mapping@.len() ==> (#[trigger] mapping@[x]).1 <= i + 1 && mapping@[x].0 < max_group
                            && (mapping@[x].1 > 0 ==> mapping@[x].0 >= 1),
                        forall|t: int| 0 <= t < n ==> #[trigger] group_ids@[t] < max_group,
                        forall|t: int| 0 <= t < n ==> (#[trigger] group_ids@[t] > 0) == (grid[t] is Empty && ((exists|h: int|
                            0 <= h < i && #[trigger] hint_with_empties(grid[h]) && self.graph.spec_neighbors(h).contains(t as usize))
                            || nbrs@.take(q as int).contains(t as usize))),
                        nd ==> forall|t: int|
                            0 <= t < n && !(grid[t] is Empty && nbrs@.take(q as int).contains(t as usize)) ==> #[trigger] group_ids@[t]
                                == b0[t],
                        nd ==> forall|t: int|
                            0 <= t < n && grid[t] is Empty && nbrs@.take(q as int).contains(t as usize) ==> #[trigger] split_to(
                                group_ids@,
                                b0,
                                mapping@,
                                i + 1,
                                m0 as int,
                                t,
                            ),
                        forall|x: int, y: int|
                            0 <= x < mapping@.len() && 0 <= y < mapping@.len() && (#[trigger] mapping@[x]).1 == i + 1
                                && (#[trigger] mapping@[y]).1 == i + 1 && mapping@[x].0 == mapping@[y].0 ==> x == y,
                        forall|x: int| 0 <= x < mapping@.len() && (#[trigger] mapping@[x]).1 == i + 1 ==> m0 <= mapping@[x].0,
                        forall|a: int, b: int|
                            0 <= a < n && 0 <= b < n && grid[a] is Empty && grid[b] is Empty && #[trigger] b0[a] == #[trigger] b0[b]
                                ==> same_hints(grid, self.graph, a, b, i as int),
                        forall|x: int| max_group <= x < mapping@.len() ==> #[trigger] mapping@[x] == (0usize, 0usize),
                        forall|t: int| 0 <= t < n && grid[t] is Empty ==> origin_of(org, m0 as int, #[trigger] group_ids@[t] as int)
                            == b0[t],
                        forall|t: int| 0 <= t < n && grid[t] is Empty && nbrs@.take(q as int).contains(t as usize) ==> #[trigger] group_ids@[t]
                            >= m0,
                        forall|t: int| 0 <= t < n && !(grid[t] is Empty && nbrs@.take(q as int).contains(t as usize)) ==> #[trigger] group_ids@[t]
                            == b0[t],
                        forall|x: int| 0 <= x < mapping@.len() && (#[trigger] mapping@[x]).1 == i + 1 ==> origin_of(org, m0 as int, mapping@[x].0 as int)
                            == origin_of(org, m0 as int, x),
                    decreases nbrs.len() - q,
                {
                    let j = nbrs[q];
                    let ghost gb = group_ids@;
                    let ghost mb = mapping@;
                    let ghost mgb = max_group;
                    proof {
                        assert(255 * i + q + 1 <= 255 * n) by (nonlinear_arith)
                            requires
                                i < n,
                                q < 255,
                        ;
                        assert(nbrs@.take(q + 1) =~= nbrs@.take(q as int).push(j));
                        if nd {
                            assert(!nbrs@.take(q as int).contains(j)) by {
                                if nbrs@.take(q as int).contains(j) {
                                    let m = choose|m: int| 0 <= m < q && #[trigger] nbrs@.take(q as int)[m] == j;
                                    assert(nbrs@[m] == nbrs@[q as int]);
                                    assert(self.graph.spec_neighbors(i as int).no_duplicates());
                                }
                            }
                        }
                    }
                    let ghost org0 = org;
                    let ghost mut fresh_j = false;
                    proof {
                        assert forall|x: int| max_group <= x < mb.len() implies #[trigger] mb[x] == (0usize, 0usize) by {}
                    }
                    if let Tile::Empty = self.grid[j] {
                        let id = group_ids[j];
                        if id >= mapping.len() {
                            while mapping.len() <= id
                                invariant
                                    id < max_group,
                                    max_group <= 1 + 255 * i + q,
                                    mb.len() <= mapping@.len(),
                                    forall|x: int| 0 <= x < mb.len() ==> #[trigger] mapping@[x] == mb[x],
                                    forall|x: int| mb.len() <= x < mapping@.len() ==> #[trigger] mapping@[x] == (0usize, 0usize),
                                    forall|x: int| 0 <= x < mapping@.len() ==> (#[trigger] mapping@[x]).1 <= i + 1 && mapping@[x].0
                                        < max_group && (mapping@[x].1 > 0 ==> mapping@[x].0 >= 1),
                                decreases id + 1 - mapping.len(),
                            {
                                mapping.push((0, 0));
                            }
                        }
                        let entry = mapping[id];
                        if entry.1 < i + 1 {
                            proof {
                                let mg = max_group as int;
                                let o = origin_of(org0, m0 as int, id as int);
                                org = |g: int| if g == mg { o } else { org0(g) };
                                fresh_j = true;
                            }
                            mapping.set(id, (max_group, i + 1));
                            group_ids.set(j, max_group);
                            max_group = max_group + 1;
                        } else {
                            proof {
                                if (id as int) >= mb.len() {
                                    assert(mapping@[id as int] == (0usize, 0usize));
                                }
                                assert(mapping@[id as int] == mb[id as int]);
                                assert(origin_of(org0, m0 as int, mb[id as int].0 as int) == origin_of(org0, m0 as int, id as int));
                            }
                            group_ids.set(j, entry.0);
                        }
                    }
                    proof {
                        assert forall|t: int| 0 <= t < n implies (#[trigger] group_ids@[t] > 0) == (grid[t] is Empty && ((exists|h: int|
                            0 <= h < i && #[trigger] hint_with_empties(grid[h]) && self.graph.spec_neighbors(h).contains(t as usize))
                            || nbrs@.take(q + 1).contains(t as usize))) by {
                            if t != j {
                                assert(group_ids@[t] == gb[t]);
                                if nbrs@.take(q + 1).contains(t as usize) {
                                    let m = choose|m: int| 0 <= m < q + 1 && #[trigger] nbrs@.take(q + 1)[m] == t as usize;
                                    assert(nbrs@.take(q as int)[m] == t as usize);
                                }
                                if nbrs@.take(q as int).contains(t as usize) {
                                    let m = choose|m: int| 0 <= m < q && #[trigger] nbrs@.take(q as int)[m] == t as usize;
                                    assert(nbrs@.take(q + 1)[m] == t as usize);
                                }
                            } else {
                                assert(nbrs@.take(q + 1)[q as int] == j);
                            }
                        }
                        assert forall|x: int| 0 <= x < mb.len() && x < mapping@.len() && mapping@[x] != mb[x] implies x
                            == gb[j as int] && grid[j as int] is Empty by {}
                        if nd {
                            assert forall|t: int|
                                0 <= t < n && !(grid[t] is Empty && nbrs@.take(q + 1).contains(t as usize)) implies #[trigger] group_ids@[t]
                                    == b0[t] by {
                                if t != j {
                                    assert(group_ids@[t] == gb[t]);
                                    if nbrs@.take(q as int).contains(t as usize) {
                                        let m = choose|m: int| 0 <= m < q && #[trigger] nbrs@.take(q as int)[m] == t as usize;
                                        assert(nbrs@.take(q + 1)[m] == t as usize);
                                    }
                                } else {
                                    assert(nbrs@.take(q + 1)[q as int] == j);
                                }
                            }
                            assert forall|t: int|
                                0 <= t < n && grid[t] is Empty && nbrs@.take(q + 1).contains(t as usize) implies #[trigger] split_to(
                                    group_ids@,
                                    b0,
                                    mapping@,
                                    i + 1,
                                    m0 as int,
                                    t,
                                ) by {
                                if t != j {
                                    let m = choose|m: int| 0 <= m < q + 1 && #[trigger] nbrs@.take(q + 1)[m] == t as usize;
                                    assert(nbrs@.take(q as int)[m] == t as usize);
                                    assert(group_ids@[t] == gb[t]);
                                    assert(split_to(gb, b0, mb, i + 1, m0 as int, t));
                                    assert(mapping@[b0[t] as int] == mb[b0[t] as int]) by {
                                        if b0[t] == gb[j as int] {
                                            assert(mb[b0[t] as int].1 == i + 1);
                                        }
                                    }
                                } else {
                                    assert(gb[j as int] == b0[j as int]);
                                }
                            }
                        }
                        assert forall|x: int, y: int|
                            0 <= x < mapping@.len() && 0 <= y < mapping@.len() && (#[trigger] mapping@[x]).1 == i + 1
                                && (#[trigger] mapping@[y]).1 == i + 1 && mapping@[x].0 == mapping@[y].0 implies x == y by {
                            if x < mb.len() && y < mb.len() && mapping@[x] == mb[x] && mapping@[y] == mb[y] {
                            } else if x < mb.len() && mapping@[x] == mb[x] {
                                assert(mb[x].0 < max_group - 1 || mb[x].1 != i + 1);
                            } else if y < mb.len() && mapping@[y] == mb[y] {
                                assert(mb[y].0 < max_group - 1 || mb[y].1 != i + 1);
                            }
                        }
                    }
                    proof {
                        // the numbering's history, kept without assuming distinct neighbours
                        let idj = gb[j as int] as int;
                        assert(forall|g: int| g != mgb ==> #[trigger] org(g) == org0(g));
                        assert forall|x: int| max_group <= x < mapping@.len() implies #[trigger] mapping@[x] == (0usize, 0usize) by {
                            if x < mb.len() && mapping@[x] != mb[x] {
                                assert(x == gb[j as int]);
                            }
                        }
                        assert forall|t: int| 0 <= t < n && grid[t] is Empty implies origin_of(org, m0 as int, #[trigger] group_ids@[t] as int)
                            == b0[t] by {
                            assert(origin_of(org0, m0 as int, gb[t] as int) == b0[t]);
                            if t != j {
                                assert(group_ids@[t] == gb[t]);
                            } else if fresh_j {
                                assert(group_ids@[t] == mgb);
                            }
                        }
                        assert forall|t: int| 0 <= t < n && grid[t] is Empty && nbrs@.take(q + 1).contains(t as usize) implies
                            #[trigger] group_ids@[t] >= m0 by {
                            if t != j {
                                let m = choose|m: int| 0 <= m < q + 1 && #[trigger] nbrs@.take(q + 1)[m] == t as usize;
                                assert(nbrs@.take(q as int)[m] == t as usize);
                                assert(group_ids@[t] == gb[t]);
                            }
                        }
                        assert forall|t: int| 0 <= t < n && !(grid[t] is Empty && nbrs@.take(q + 1).contains(t as usize)) implies
                            #[trigger] group_ids@[t] == b0[t] by {
                            if t != j {
                                assert(group_ids@[t] == gb[t]);
                                if nbrs@.take(q as int).contains(t as usize) {
                                    let m = choose|m: int| 0 <= m < q && #[trigger] nbrs@.take(q as int)[m] == t as usize;
                                    assert(nbrs@.take(q + 1)[m] == t as usize);
                                }
                            } else {
                                assert(nbrs@.take(q + 1)[q as int] == j);
                            }
                        }
                        assert forall|x: int| 0 <= x < mapping@.len() && (#[trigger] mapping@[x]).1 == i + 1 implies origin_of(
                            org,
                            m0 as int,
                            mapping@[x].0 as int,
                        ) == origin_of(org, m0 as int, x) by {
                            if x < mb.len() && mapping@[x] == mb[x] {
                                assert(origin_of(org0, m0 as int, mb[x].0 as int) == origin_of(org0, m0 as int, x));
                                assert(x < mgb);
                            } else if x < mb.len() {
                                assert(x == idj);
                            }
                        }
                    }
                    q = q + 1;
                }
                proof {
                    assert(nbrs@.take(nbrs@.len() as int) =~= nbrs@);
                    assert forall|a: int, b: int|
                        0 <= a < n && 0 <= b < n && grid[a] is Empty && grid[b] is Empty && #[trigger] group_ids@[a]
                            == #[trigger] group_ids@[b] implies same_hints(grid, self.graph, a, b, i + 1) by {
                        lemma_same_hints_step(grid, self.graph, a, b, i as int);
                        let ia = nbrs@.contains(a as usize);
                        let ib = nbrs@.contains(b as usize);
                        if ia && ib {
                            assert(origin_of(org, m0 as int, group_ids@[a] as int) == b0[a]);
                            assert(origin_of(org, m0 as int, group_ids@[b] as int) == b0[b]);
                        } else if !ia && !ib {
                            assert(group_ids@[a] == b0[a]);
                            assert(group_ids@[b] == b0[b]);
                        } else if ia {
                            assert(group_ids@[b] == b0[b]);
                        } else {
                            assert(group_ids@[a] == b0[a]);
                        }
                    }
                    assert forall|t: int| 0 <= t < n implies (#[trigger] group_ids@[t] > 0) == (grid[t] is Empty && exists|h: int|
                        0 <= h < i + 1 && #[trigger] hint_with_empties(grid[h]) && self.graph.spec_neighbors(h).contains(t as usize)) by {
                        if grid[t] is Empty && exists|h: int| 0 <= h < i + 1 && #[trigger] hint_with_empties(grid[h])
                            && self.graph.spec_neighbors(h).contains(t as usize) {
                            let h = choose|h: int| 0 <= h < i + 1 && #[trigger] hint_with_empties(grid[h])
                                && self.graph.spec_neighbors(h).contains(t as usize);
                            if h == i {
                                assert(nbrs@.contains(t as usize));
                            }
                        }
                    }
                    if nd {
                        assert forall|a: int, b: int|
                            0 <= a < n && 0 <= b < n && grid[a] is Empty && grid[b] is Empty implies ((#[trigger] group_ids@[a]
                                == #[trigger] group_ids@[b]) <==> same_hints(grid, self.graph, a, b, i + 1)) by {
                            lemma_same_hints_step(grid, self.graph, a, b, i as int);
                            let ia = nbrs@.contains(a as usize);
                            let ib = nbrs@.contains(b as usize);
                            assert(b0[a] == b0[b] <==> same_hints(grid, self.graph, a, b, i as int));
                            assert(nbrs@ == self.graph.spec_neighbors(i as int));
                            if ia && ib {
                                assert(split_to(group_ids@, b0, mapping@, i + 1, m0 as int, a));
                                assert(split_to(group_ids@, b0, mapping@, i + 1, m0 as int, b));
                                if group_ids@[a] == group_ids@[b] {
                                    assert(mapping@[b0[a] as int].1 == i + 1);
                                    assert(mapping@[b0[b] as int].1 == i + 1);
                                    assert(b0[a] == b0[b]);
                                }
                                assert(same_hints(grid, self.graph, a, b, i + 1) == same_hints(grid, self.graph, a, b, i as int));
                            } else if !ia && !ib {
                                assert(group_ids@[a] == b0[a]);
                                assert(group_ids@[b] == b0[b]);
                                assert(same_hints(grid, self.graph, a, b, i + 1) == same_hints(grid, self.graph, a, b, i as int));
                            } else if ia {
                                assert(split_to(group_ids@, b0, mapping@, i + 1, m0 as int, a));
                                assert(group_ids@[b] == b0[b]);
                                assert(!same_hints(grid, self.graph, a, b, i + 1));
                            } else {
                                assert(split_to(group_ids@, b0, mapping@, i + 1, m0 as int, b));
                                assert(group_ids@[a] == b0[a]);
                                assert(!same_hints(grid, self.graph, a, b, i + 1));
                            }
                        }
                    }
                    assert(max_group <= 1 + 255 * (i + 1)) by (nonlinear_arith)
                        requires
                            max_group <= 1 + 255 * i + nbrs@.len(),
                            nbrs@.len() <= 255,
                    ;
                }
            } else {
                proof {
                    assert forall|t: int| 0 <= t < n implies (#[trigger] group_ids@[t] > 0) == (grid[t] is Empty && exists|h: int|
                        0 <= h < i + 1 && #[trigger] hint_with_empties(grid[h]) && self.graph.spec_neighbors(h).contains(t as usize)) by {
                        if exists|h: int| 0 <= h < i + 1 && #[trigger] hint_with_empties(grid[h])
                            && self.graph.spec_neighbors(h).contains(t as usize) {
                            let h = choose|h: int| 0 <= h < i + 1 && #[trigger] hint_with_empties(grid[h])
                                && self.graph.spec_neighbors(h).contains(t as usize);
                            assert(h != i);
                        }
                    }
                    if nd {
                        assert forall|a: int, b: int|
                            0 <= a < n && 0 <= b < n && grid[a] is Empty && grid[b] is Empty implies ((#[trigger] group_ids@[a]
                                == #[trigger] group_ids@[b]) <==> same_hints(grid, self.graph, a, b, i + 1)) by {
                            lemma_same_hints_step(grid, self.graph, a, b, i as int);
                        }
                    }
                    assert forall|a: int, b: int|
                        0 <= a < n && 0 <= b < n && grid[a] is Empty && grid[b] is Empty && #[trigger] group_ids@[a]
                            == #[trigger] group_ids@[b] implies same_hints(grid, self.graph, a, b, i + 1) by {
                        lemma_same_hints_step(grid, self.graph, a, b, i as int);
                    }
                    assert(max_group <= 1 + 255 * (i + 1)) by (nonlinear_arith)
                        requires
                            max_group <= 1 + 255 * i,
                    ;
                }
            }
            i = i + 1;
        }
        let ghost pass1 = group_ids@;
        proof {
            assert forall|t: int| 0 <= t < n implies (#[trigger] pass1[t] > 0) == constrained(grid, self.graph, t) by {}
        }
        max_group = 1;
        let mut i: usize = 0;
        while i < n
            invariant
                n * 256 + 1 <= usize::MAX,
                pass1.len() == n,
                forall|t: int| 0 <= t < n ==> (#[trigger] pass1[t] > 0) == constrained(grid, self.graph, t),
                grid == self.grid@,
                n == grid.len(),
                i <= n,
                group_ids@.len() == n,
                1 <= max_group <= i + 1,
                forall|x: int| 0 <= x < mapping@.len() ==> ((#[trigger] mapping@[x]).1 == usize::MAX ==> 1 <= mapping@[x].0
                    < max_group),
                forall|t: int| i <= t < n ==> #[trigger] group_ids@[t] == pass1[t],
                forall|t: int| 0 <= t < i ==> (#[trigger] group_ids@[t] > 0) == (pass1[t] > 0 && grid[t] is Empty),
                forall|t: int| 0 <= t < i ==> #[trigger] group_ids@[t] <= n,
                prefix_max(group_ids@, i as int) + 1 == max_group,
                forall|t: int| 0 <= t < i ==> #[trigger] group_ids@[t] <= prefix_max(group_ids@, t) + 1,
                forall|t: int|
                    0 <= t < i && pass1[t] > 0 && grid[t] is Empty ==> #[trigger] split_to(
                        group_ids@,
                        pass1,
                        mapping@,
                        usize::MAX as int,
                        1,
                        t,
                    ),
                forall|x: int, y: int|
                    0 <= x < mapping@.len() && 0 <= y < mapping@.len() && (#[trigger] mapping@[x]).1 == usize::MAX
                        && (#[trigger] mapping@[y]).1 == usize::MAX && mapping@[x].0 == mapping@[y].0 ==> x == y,
            decreases n - i,
        {
            let id = group_ids[i];
            let empty = match self.grid[i] {
                Tile::Empty => true,
                _ => false,
            };
            let ghost mb = mapping@;
            let ghost gb = group_ids@;
            if id != 0 && empty {
                if id >= mapping.len() {
                    while mapping.len() <= id
                        invariant
                            mb.len() <= mapping@.len(),
                            forall|x: int| 0 <= x < mb.len() ==> #[trigger] mapping@[x] == mb[x],
                            forall|x: int| mb.len() <= x < mapping@.len() ==> #[trigger] mapping@[x] == (0usize, 0usize),
                            forall|x: int| 0 <= x < mapping@.len() ==> ((#[trigger] mapping@[x]).1 == usize::MAX ==> 1
                                <= mapping@[x].0 < max_group),
                        decreases id + 1 - mapping.len(),
                    {
                        mapping.push((0, 0));
                    }
                }
                let entry = mapping[id];
                if entry.1 != usize::MAX {
                    mapping.set(id, (max_group, usize::MAX));
                    max_group = max_group + 1;
                }
                let v = mapping[id].0;
                group_ids.set(i, v);
            }
            proof {
                assert forall|t: int| 0 <= t <= i implies prefix_max(group_ids@, t) == prefix_max(gb, t) by {
                    lemma_prefix_max_same(group_ids@, gb, t);
                }
                assert(prefix_max(group_ids@, i + 1) == if prefix_max(group_ids@, i as int) < group_ids@[i as int] {
                    group_ids@[i as int] as nat
                } else {
                    prefix_max(group_ids@, i as int)
                });
                assert forall|t: int| 0 <= t < i + 1 implies #[trigger] group_ids@[t] <= prefix_max(group_ids@, t) + 1 by {
                    if t < i {
                        assert(group_ids@[t] == gb[t]);
                    }
                }
                assert forall|t: int|
                    0 <= t < i + 1 && pass1[t] > 0 && grid[t] is Empty implies #[trigger] split_to(
                        group_ids@,
                        pass1,
                        mapping@,
                        usize::MAX as int,
                        1,
                        t,
                    ) by {
                    if t < i {
                        assert(group_ids@[t] == gb[t]);
                        assert(split_to(gb, pass1, mb, usize::MAX as int, 1, t));
                        assert(mapping@[pass1[t] as int] == mb[pass1[t] as int]) by {
                            if pass1[t] == pass1[i as int] {
                            }
                        }
                    }
                }
                assert forall|x: int, y: int|
                    0 <= x < mapping@.len() && 0 <= y < mapping@.len() && (#[trigger] mapping@[x]).1 == usize::MAX
                        && (#[trigger] mapping@[y]).1 == usize::MAX && mapping@[x].0 == mapping@[y].0 implies x == y by {
                    if x < mb.len() && y < mb.len() && mapping@[x] == mb[x] && mapping@[y] == mb[y] {
                    } else if x < mb.len() && mapping@[x] == mb[x] {
                        assert(mb[x].0 < max_group - 1 || mb[x].1 != usize::MAX);
                    } else if y < mb.len() && mapping@[y] == mb[y] {
                        assert(mb[y].0 < max_group - 1 || mb[y].1 != usize::MAX);
                    }
                }
            }
            i = i + 1;
        }
        proof {
            assert forall|a: int, b: int|
                0 <= a < n && 0 <= b < n && grid[a] is Empty && grid[b] is Empty && #[trigger] group_ids@[a]
                    == #[trigger] group_ids@[b] implies same_hints(grid, self.graph, a, b, n as int) by {
                if pass1[a] > 0 && pass1[b] > 0 {
                    assert(split_to(group_ids@, pass1, mapping@, usize::MAX as int, 1, a));
                    assert(split_to(group_ids@, pass1, mapping@, usize::MAX as int, 1, b));
                }
                assert(pass1[a] == pass1[b]);
            }
            if nd {
                assert forall|a: int, b: int|
                    0 <= a < n && 0 <= b < n && grid[a] is Empty && grid[b] is Empty implies ((#[trigger] group_ids@[a]
                        == #[trigger] group_ids@[b]) <==> same_hints(grid, self.graph, a, b, n as int)) by {
                    assert((pass1[a] == pass1[b]) <==> same_hints(grid, self.graph, a, b, n as int));
                    if pass1[a] > 0 && pass1[b] > 0 {
                        assert(split_to(group_ids@, pass1, mapping@, usize::MAX as int, 1, a));
                        assert(split_to(group_ids@, pass1, mapping@, usize::MAX as int, 1, b));
                    }
                }
            }
        }
        group_ids
    }
}


/// The largest of the first `t` numbers (0 for none).
pub open spec fn prefix_max(v: Seq<usize>, t: int) -> nat
    decreases t,
{
    if t <= 0 {
        0
    } else if prefix_max(v, t - 1) < v[t - 1] {
        v[t - 1] as nat
    } else {
        prefix_max(v, t - 1)
    }
}

proof fn lemma_prefix_max_same(a: Seq<usize>, b: Seq<usize>, t: int)
    requires
        0 <= t <= a.len(),
        t <= b.len(),
        forall|u: int| 0 <= u < t ==> a[u] == b[u],
    ensures
        prefix_max(a, t) == prefix_max(b, t),
    decreases t,
{
    if t > 0 {
        lemma_prefix_max_same(a, b, t - 1);
    }
}

/// One set of tiles per group number: group `g` holds the tiles numbered `g + 1`.
fn groups_from_cells(cg: &Vec<usize>, n: usize) -> (r: Vec<BitSet>)
    requires
        cg@.len() == n,
        len_fits(n as nat),
        forall|t: int| 0 <= t < n ==> #[trigger] cg@[t] <= n,
    ensures
        forall|g: int| 0 <= g < r@.len() ==> (#[trigger] r@[g]).wf() && r@[g]@.len() == n,
        forall|g: int, t: int| 0 <= g < r@.len() && 0 <= t < n ==> (#[trigger] r@[g]@[t] == (cg@[t] == g + 1)),
        forall|t: int| 0 <= t < n && #[trigger] cg@[t] > 0 ==> cg@[t] <= r@.len(),
        disjoint_groups(sets_view(r@)),
{
    let mut groups: Vec<BitSet> = Vec::new();
    let mut i: usize = 0;
    while i < n
        invariant
            cg@.len() == n,
            len_fits(n as nat),
            forall|t: int| 0 <= t < n ==> #[trigger] cg@[t] <= n,
            i <= n,
            forall|g: int| 0 <= g < groups@.len() ==> (#[trigger] groups@[g]).wf() && groups@[g]@.len() == n,
            forall|g: int, t: int| 0 <= g < groups@.len() && 0 <= t < n ==> (#[trigger] groups@[g]@[t] == (t < i && cg@[t]
                == g + 1)),
            forall|t: int| 0 <= t < i && #[trigger] cg@[t] > 0 ==> cg@[t] <= groups@.len(),
        decreases n - i,
    {
        let group = cg[i];
        if group != 0 {
            if group > groups.len() {
                while groups.len() < group + 1
                    invariant
                        len_fits(n as nat),
                        group <= n,
                        forall|g: int| 0 <= g < groups@.len() ==> (#[trigger] groups@[g]).wf() && groups@[g]@.len() == n,
                        forall|g: int, t: int| 0 <= g < groups@.len() && 0 <= t < n ==> (#[trigger] groups@[g]@[t] == (t < i
                            && cg@[t] == g + 1)),
                        forall|t: int| 0 <= t < i && #[trigger] cg@[t] > 0 ==> cg@[t] <= groups@.len(),
                    decreases group + 1 - groups.len(),
                {
                    let ghost before = groups@;
                    groups.push(BitSet::zeros(n));
                    proof {
                        assert forall|g: int, t: int| 0 <= g < groups@.len() && 0 <= t < n implies (#[trigger] groups@[g]@[t] == (t < i
                            && cg@[t] == g + 1)) by {
                            if g < before.len() {
                                assert(groups@[g] == before[g]);
                            } else {
                                if t < i && cg@[t] == g + 1 {
                                    assert(cg@[t] <= before.len());
                                }
                            }
                        }
                    }
                }
            }
            let mut g = BitSet::zeros(0);
            groups.set_and_swap(group - 1, &mut g);
            g.set_to_one(i);
            groups.set_and_swap(group - 1, &mut g);
        }
        i = i + 1;
    }
    proof {
        assert forall|a: int, b: int, t: int|
            0 <= a < sets_view(groups@).len() && 0 <= b < sets_view(groups@).len() && a != b && 0 <= t < sets_view(groups@)[a].len()
            implies !(#[trigger] sets_view(groups@)[a][t] && #[trigger] sets_view(groups@)[b][t]) by {
            assert(sets_view(groups@)[a] == groups@[a]@);
            assert(sets_view(groups@)[b] == groups@[b]@);
        }
    }
    groups
}

impl<G: Graph> Board<G> {
    /// The group indices (group number less one) of the grouped neighbours of tile `i`.
    fn hint_group_set(&self, cg: &Vec<usize>, i: usize) -> (r: BitSet)
        requires
            self.wf(),
            i < self.grid@.len(),
            len_fits(self.grid@.len()),
            cg@.len() == self.grid@.len(),
            forall|t: int| 0 <= t < cg@.len() ==> #[trigger] cg@[t] <= cg@.len(),
        ensures
            r.wf(),
            r@.len() == self.grid@.len(),
            forall|g: int| 0 <= g < r@.len() ==> (#[trigger] r@[g] == exists|m: int|
                0 <= m < self.graph.spec_neighbors(i as int).len() && cg@[#[trigger] self.graph.spec_neighbors(i as int)[m] as int] == g + 1),
    {
        let n = self.grid.len();
        let nbrs = self.neighbors(i);
        proof {
            self.graph.lemma_neighbors_in_range(i as int);
        }
        let mut ids: Vec<usize> = Vec::new();
        let mut q: usize = 0;
        while q < nbrs.len()
            invariant
                n == cg@.len(),
                forall|t: int| 0 <= t < cg@.len() ==> #[trigger] cg@[t] <= cg@.len(),
                forall|m: int| 0 <= m < nbrs@.len() ==> #[trigger] nbrs@[m] < n,
                q <= nbrs@.len(),
                forall|k: int| 0 <= k < ids@.len() ==> #[trigger] ids@[k] < n,
                forall|g: usize| #[trigger] ids@.contains(g) <==> exists|m: int| 0 <= m < q && cg@[#[trigger] nbrs@[m] as int] == g + 1,
            decreases nbrs.len() - q,
        {
            let j = nbrs[q];
            let ghost before = ids@;
            if cg[j] > 0 {
                ids.push(cg[j] - 1);
            }
            proof {
                assert forall|g: usize| #[trigger] ids@.contains(g) <==> exists|m: int| 0 <= m < q + 1 && cg@[#[trigger] nbrs@[m] as int] == g + 1 by {
                    if ids@.contains(g) {
                        let k = choose|k: int| 0 <= k < ids@.len() && ids@[k] == g;
                        if k < before.len() {
                            assert(before[k] == g);
                            assert(before.contains(g));
                        } else {
                            assert(cg@[nbrs@[q as int] as int] == g + 1);
                        }
                    }
                    if exists|m: int| 0 <= m < q + 1 && cg@[#[trigger] nbrs@[m] as int] == g + 1 {
                        let m = choose|m: int| 0 <= m < q + 1 && cg@[#[trigger] nbrs@[m] as int] == g + 1;
                        if m < q {
                            assert(before.contains(g));
                            let k = choose|k: int| 0 <= k < before.len() && before[k] == g;
                            assert(ids@[k] == g);
                        } else {
                            assert(ids@[before.len() as int] == g);
                        }
                    }
                }
            }
            q = q + 1;
        }
        let r = BitSet::from_iter(ids.as_slice(), n);
        proof {
            assert forall|g: int| 0 <= g < r@.len() implies (#[trigger] r@[g] == exists|m: int|
                0 <= m < self.graph.spec_neighbors(i as int).len() && cg@[#[trigger] self.graph.spec_neighbors(i as int)[m] as int] == g + 1) by {
                assert(r@[g] == ids@.contains(g as usize));
            }
        }
        r
    }

    /// The grouped neighbours of tile `i`.
    fn hint_mask(&self, cg: &Vec<usize>, i: usize) -> (r: BitSet)
        requires
            self.wf(),
            i < self.grid@.len(),
            len_fits(self.grid@.len()),
            cg@.len() == self.grid@.len(),
        ensures
            r.wf(),
            r@.len() == self.grid@.len(),
            forall|t: int| 0 <= t < r@.len() ==> (#[trigger] r@[t] == (self.graph.spec_neighbors(i as int).contains(t as usize)
                && cg@[t] > 0)),
    {
        let n = self.grid.len();
        let nbrs = self.neighbors(i);
        proof {
            self.graph.lemma_neighbors_in_range(i as int);
        }
        let mut ids: Vec<usize> = Vec::new();
        let mut q: usize = 0;
        while q < nbrs.len()
            invariant
                n == cg@.len(),
                forall|m: int| 0 <= m < nbrs@.len() ==> #[trigger] nbrs@[m] < n,
                q <= nbrs@.len(),
                forall|k: int| 0 <= k < ids@.len() ==> #[trigger] ids@[k] < n,
                forall|t: usize| #[trigger] ids@.contains(t) <==> nbrs@.take(q as int).contains(t) && t < n && cg@[t as int] > 0,
            decreases nbrs.len() - q,
        {
            let j = nbrs[q];
            let ghost before = ids@;
            if cg[j] > 0 {
                ids.push(j);
            }
            proof {
                assert(nbrs@.take(q + 1) =~= nbrs@.take(q as int).push(j));
                assert forall|t: usize| #[trigger] ids@.contains(t) <==> nbrs@.take(q + 1).contains(t) && t < n && cg@[t as int] > 0 by {
                    if ids@.contains(t) {
                        let k = choose|k: int| 0 <= k < ids@.len() && ids@[k] == t;
                        if k < before.len() {
                            assert(before[k] == t);
                            assert(before.contains(t));
                            let m = choose|m: int| 0 <= m < q && #[trigger] nbrs@.take(q as int)[m] == t;
                            assert(nbrs@.take(q + 1)[m] == t);
                        } else {
                            assert(nbrs@.take(q + 1)[q as int] == t);
                        }
                    }
                    if nbrs@.take(q + 1).contains(t) && t < n && cg@[t as int] > 0 {
                        let m = choose|m: int| 0 <= m < q + 1 && #[trigger] nbrs@.take(q + 1)[m] == t;
                        if m < q {
                            assert(nbrs@.take(q as int)[m] == t);
                            assert(before.contains(t));
                            let k = choose|k: int| 0 <= k < before.len() && before[k] == t;
                            assert(ids@[k] == t);
                        } else {
                            assert(ids@[before.len() as int] == t);
                        }
                    }
                }
            }
            q = q + 1;
        }
        assert(nbrs@.take(nbrs@.len() as int) =~= nbrs@);
        BitSet::from_iter(ids.as_slice(), n)
    }
}


/// Every group lies on constrained tiles, so every region lies on undecided tiles.
proof fn lemma_region_in_empties<G: Graph>(
    gs: Seq<Seq<bool>>,
    group_set: Seq<bool>,
    cg: Seq<usize>,
    grid: Seq<Tile>,
    graph: G,
)
    requires
        cg.len() == grid.len(),
        group_set.len() == grid.len(),
        group_set.len() <= usize::MAX,
        forall|g: int| 0 <= g < gs.len() ==> (#[trigger] gs[g]).len() == grid.len(),
        forall|g: int, t: int| 0 <= g < gs.len() && 0 <= t < grid.len() ==> (#[trigger] gs[g][t] == (cg[t] == g + 1)),
        forall|t: int| 0 <= t < cg.len() ==> (#[trigger] cg[t] > 0) == constrained(grid, graph, t),
        forall|g: int| 0 <= g < group_set.len() && #[trigger] group_set[g] ==> g < gs.len(),
    ensures
        subset(region(gs, group_set), empties_of(grid)),
{
    lemma_ones_of(group_set);
    let order = ones_of(group_set);
    assert forall|t: int| 0 <= t < region(gs, group_set).len() && #[trigger] region(gs, group_set)[t]
        implies t < empties_of(grid).len() && empties_of(grid)[t] by {
        let j = choose|j: int| 0 <= j < order.len() && #[trigger] gs[order[j] as int][t];
        assert(cg[t] > 0);
    }
}

/// A board with a tile that is not undecided has fewer undecided tiles than tiles.
proof fn lemma_empties_short(grid: Seq<Tile>, h: int)
    requires
        0 <= h < grid.len(),
        !(grid[h] is Empty),
    ensures
        true_count(empties_of(grid)) < grid.len(),
{
    let all = Seq::new(grid.len(), |i: int| true);
    lemma_true_count_strict(empties_of(grid), all, h);
    crate::bits::lemma_true_count_le(all);
}

impl<G: Graph> Board<G> {
    /// The usable states of the board for building its arrangements: a usable graph with few
    /// enough neighbours per tile for the hint counters, room to number the groups, and no more
    /// flagged mines than mines.
    pub open spec fn arrangements_ready(&self) -> bool {
        &&& self.wf()
        &&& degrees_fit(self.graph)
        &&& self.grid@.len() * 256 + 1 <= usize::MAX
        &&& tile_count(self.grid@, true) <= self.num_mines
    }

    /// The arrangements of each hint with undecided neighbours on its own, one set per hint.
    #[verifier::rlimit(60)]
    fn initial_solutionset(&self) -> (r: MineArrangements)
        requires
            self.arrangements_ready(),
        ensures
            r.wf(),
            r.spec_mask() == empties_of(self.grid@),
            r.spec_num_tiles() == self.grid@.len(),
            r.spec_remaining_mines() == self.num_mines - tile_count(self.grid@, true),
            forall|t: int| 0 <= t < self.grid@.len() ==> (constrained(self.grid@, self.graph, t) <==> exists|g: int|
                0 <= g < r.spec_groups().len() && #[trigger] r.spec_groups()[g][t]),
            forall|k: int| 0 <= k < r.spec_subs().len() ==> sub_of_some_hint(self.grid@, self.graph, r.spec_groups(), #[trigger] r.spec_subs()[k]),
            forall|h: int| 0 <= h < self.grid@.len() && #[trigger] hint_with_empties(self.grid@[h]) ==> exists|k: int|
                0 <= k < r.spec_subs().len() && #[trigger] sub_for_hint(self.grid@, self.graph, r.spec_groups(), r.spec_subs()[k], h),
    {
        let n = self.num_tiles();
        proof {
            assert(len_fits(n as nat)) by (nonlinear_arith)
                requires
                    n * 256 + 1 <= usize::MAX,
                    usize::MAX >= 0xffff_ffff,
            ;
        }
        let cg = self.cell_groups();
        let groups = groups_from_cells(&cg, n);
        let ghost gs = sets_view(groups@);
        let mut subs: Vec<ArrangementSet> = Vec::new();
        let ghost mut hint_of: Seq<int> = Seq::empty();
        let mut i: usize = 0;
        while i < n
            invariant
                self.arrangements_ready(),
                n == self.grid@.len(),
                len_fits(n as nat),
                gs == sets_view(groups@),
                cg@.len() == n,
                forall|t: int| 0 <= t < n ==> (#[trigger] cg@[t] > 0) == constrained(self.grid@, self.graph, t),
                forall|t: int| 0 <= t < n ==> #[trigger] cg@[t] <= n,
                forall|g: int| 0 <= g < groups@.len() ==> (#[trigger] groups@[g]).wf() && groups@[g]@.len() == n,
                forall|g: int, t: int| 0 <= g < groups@.len() && 0 <= t < n ==> (#[trigger] groups@[g]@[t] == (cg@[t] == g + 1)),
                forall|t: int| 0 <= t < n && #[trigger] cg@[t] > 0 ==> cg@[t] <= groups@.len(),
                disjoint_groups(gs),
                i <= n,
                forall|k: int| 0 <= k < subs@.len() ==> (#[trigger] subs@[k]).wf_in(n as nat, groups@.len() as nat)
                    && subset(subs@[k].spec_mask(), empties_of(self.grid@)),
                subs@.len() > 0 ==> true_count(empties_of(self.grid@)) < n,
                distinct_neighbors(self.graph) ==> forall|a: int, b: int|
                    0 <= a < n && 0 <= b < n && self.grid@[a] is Empty && self.grid@[b] is Empty ==> ((
                    #[trigger] cg@[a] == #[trigger] cg@[b]) <==> same_hints(self.grid@, self.graph, a, b, n as int)),
                forall|a: int, b: int|
                    0 <= a < n && 0 <= b < n && self.grid@[a] is Empty && self.grid@[b] is Empty && #[trigger] cg@[a]
                        == #[trigger] cg@[b] ==> same_hints(self.grid@, self.graph, a, b, n as int),
                hint_of.len() == subs@.len(),
                forall|k: int| 0 <= k < subs@.len() ==> 0 <= #[trigger] hint_of[k] < i && sub_for_hint(
                    self.grid@,
                    self.graph,
                    gs,
                    subs@[k],
                    hint_of[k],
                ),
                forall|h: int| 0 <= h < i && #[trigger] hint_with_empties(self.grid@[h]) ==> hint_of.contains(h),
            decreases n - i,
        {
            if let Tile::Hint { remaining_mines, empties, .. } = self.grid[i] {
                if empties >= 1 {
                    let group_set = self.hint_group_set(&cg, i);
                    proof {
                        assert forall|g: int| 0 <= g < group_set@.len() && #[trigger] group_set@[g] implies g < groups@.len() by {
                            let m = choose|m: int| 0 <= m < self.graph.spec_neighbors(i as int).len()
                                && cg@[#[trigger] self.graph.spec_neighbors(i as int)[m] as int] == g + 1;
                            self.graph.lemma_neighbors_in_range(i as int);
                            let t = self.graph.spec_neighbors(i as int)[m] as int;
                            assert(cg@[t] > 0);
                        }
                        assert forall|g: int, t: int| 0 <= g < gs.len() && 0 <= t < n implies (#[trigger] gs[g][t] == (cg@[t] == g + 1)) by {
                            assert(gs[g] == groups@[g]@);
                        }
                        assert forall|g: int| 0 <= g < gs.len() implies (#[trigger] gs[g]).len() == n by {
                            assert(gs[g] == groups@[g]@);
                        }
                        lemma_region_in_empties(gs, group_set@, cg@, self.grid@, self.graph);
                        lemma_empties_short(self.grid@, i as int);
                        lemma_hint_region(self.grid@, self.graph, gs, cg@, group_set@, i as int);
                    }
                    let ghost subs0 = subs@;
                    let sub = ArrangementSet::new(&groups, &group_set, remaining_mines as usize);
                    subs.push(sub);
                    proof {
                        assert forall|x: Seq<bool>| #[trigger] sub.spec_arrangements().contains(x) <==> is_combination(
                            x, gs, sub.spec_groups(), remaining_mines as nat) by {
                            if sub.spec_arrangements().contains(x) {
                                let kx = choose|kx: int| 0 <= kx < sub.spec_arrangements().len() && sub.spec_arrangements()[kx] == x;
                            }
                        }
                        assert(sub_for_hint(self.grid@, self.graph, gs, sub, i as int)) by {
                            reveal(sub_for_hint);
                        }
                        let h0 = hint_of;
                        hint_of = hint_of.push(i as int);
                        assert forall|k: int| 0 <= k < subs@.len() implies 0 <= #[trigger] hint_of[k] < i + 1 && sub_for_hint(
                            self.grid@, self.graph, gs, subs@[k], hint_of[k]) by {
                            if k < subs0.len() {
                                assert(subs@[k] == subs0[k]);
                                assert(hint_of[k] == h0[k]);
                            }
                        }
                        assert forall|h: int| 0 <= h < i + 1 && #[trigger] hint_with_empties(self.grid@[h]) implies hint_of.contains(h) by {
                            if h < i {
                                let k = choose|k: int| 0 <= k < h0.len() && h0[k] == h;
                                assert(hint_of[k] == h);
                            } else {
                                assert(hint_of[h0.len() as int] == h);
                            }
                        }
                    }
                    proof {
                        assert forall|k: int| 0 <= k < subs@.len() implies (#[trigger] subs@[k]).wf_in(n as nat, groups@.len() as nat)
                            && subset(subs@[k].spec_mask(), empties_of(self.grid@)) by {
                            if k == subs@.len() - 1 {
                                assert(subs@[k] == sub);
                            }
                        }
                    }
                }
            }
            i = i + 1;
        }
        let mask = self.all_empties();
        let remaining_mines = self.remaining_mines();
        let ghost subs_v = subs@;
        let r = MineArrangements { groups, sub_arrangements: subs, mask, remaining_mines, num_tiles: n };
        proof {
            assert(r.spec_subs() == subs_v);
            assert(r.spec_groups() == gs);
            assert forall|k: int| 0 <= k < r.spec_subs().len() implies sub_of_some_hint(self.grid@, self.graph, r.spec_groups(), #[trigger] r.spec_subs()[k]) by {
                assert(sub_for_hint(self.grid@, self.graph, gs, subs_v[k], hint_of[k]));
                assert(0 <= hint_of[k] < self.grid@.len());
                assert(sub_for_hint(self.grid@, self.graph, r.spec_groups(), r.spec_subs()[k], hint_of[k]));
            }
            assert forall|h: int| 0 <= h < self.grid@.len() && #[trigger] hint_with_empties(self.grid@[h]) implies exists|k: int|
                0 <= k < r.spec_subs().len() && #[trigger] sub_for_hint(self.grid@, self.graph, r.spec_groups(), r.spec_subs()[k], h) by {
                let k = choose|k: int| 0 <= k < hint_of.len() && hint_of[k] == h;
                assert(sub_for_hint(self.grid@, self.graph, gs, subs_v[k], hint_of[k]));
            }
            assert forall|t: int| 0 <= t < n implies (constrained(self.grid@, self.graph, t) <==> exists|g: int|
                0 <= g < r.spec_groups().len() && #[trigger] r.spec_groups()[g][t]) by {
                if constrained(self.grid@, self.graph, t) {
                    let g = cg@[t] - 1;
                    assert(r.spec_groups()[g][t]);
                }
                if exists|g: int| 0 <= g < r.spec_groups().len() && #[trigger] r.spec_groups()[g][t] {
                    let g = choose|g: int| 0 <= g < r.spec_groups().len() && #[trigger] r.spec_groups()[g][t];
                    assert(r.groups@[g]@[t]);
                }
            }
        }
        r
    }
}


/// The undecided neighbours of tile `h`.
pub open spec fn undecided_neighbors<G: Graph>(grid: Seq<Tile>, graph: G, h: int) -> Seq<bool> {
    Seq::new(grid.len(), |t: int| grid[t] is Empty && graph.spec_neighbors(h).contains(t as usize))
}

/// `t` is a hint that still needs `num` mines.
pub open spec fn hint_needs(t: Tile, num: nat) -> bool {
    t matches Tile::Hint { remaining_mines, .. } && remaining_mines == num
}

/// A group set and number that stand for a hint: the number is what the hint still needs, and
/// the region of the groups is the hint's undecided neighbours.
pub open spec fn hint_constraint<G: Graph>(grid: Seq<Tile>, graph: G, gs: Seq<Seq<bool>>, group_set: Seq<bool>, num: nat) -> bool {
    exists|h: int|
        0 <= h < grid.len() && hint_with_empties(grid[h]) && #[trigger] hint_needs(grid[h], num) && region(gs, group_set)
            == undecided_neighbors(grid, graph, h)
}

/// `s` is the arrangement set of hint `h` on its own: the hint's groups, which cover its
/// undecided neighbours, holding exactly the combinations of the mines the hint still needs.
#[verifier::opaque]
pub open spec fn sub_for_hint<G: Graph>(grid: Seq<Tile>, graph: G, gs: Seq<Seq<bool>>, s: ArrangementSet, h: int) -> bool {
    &&& hint_with_empties(grid[h])
    &&& region(gs, s.spec_groups()) == undecided_neighbors(grid, graph, h)
    &&& forall|x: Seq<bool>| #[trigger] s.spec_arrangements().contains(x) <==> is_combination(
        x,
        gs,
        s.spec_groups(),
        grid[h]->remaining_mines as nat,
    )
}

/// `s` is the arrangement set of some hint on its own (`sub_for_hint`).
pub open spec fn sub_of_some_hint<G: Graph>(grid: Seq<Tile>, graph: G, gs: Seq<Seq<bool>>, s: ArrangementSet) -> bool {
    exists|h: int| 0 <= h < grid.len() && #[trigger] sub_for_hint(grid, graph, gs, s, h)
}

/// No hint without undecided neighbours still needs a mine.
pub open spec fn no_hint_stuck(grid: Seq<Tile>) -> bool {
    forall|h: int| 0 <= h < grid.len() ==> match #[trigger] grid[h] {
        Tile::Hint { remaining_mines, empties, .. } => empties == 0 ==> remaining_mines == 0,
        _ => true,
    }
}

/// A list that names an undecided tile counts it.
proof fn lemma_count_lists_kind(grid: Seq<Tile>, s: Seq<usize>, q: int)
    requires
        0 <= q < s.len(),
        grid[s[q] as int] is Empty,
    ensures
        crate::board::nbr_count(grid, s, false) > 0,
    decreases s.len(),
{
    if q < s.len() - 1 {
        assert(s.drop_last()[q] == s[q]);
        lemma_count_lists_kind(grid, s.drop_last(), q);
    }
}

/// Soundness of the arrangements: on a board whose hint counters agree with its tiles and where
/// no hint without undecided neighbours still needs a mine, every placement that the board's
/// arrangements admit is consistent with the board.
pub proof fn law_admitted_consistent<G: Graph>(board: Board<G>, r: MineArrangements, p: Seq<bool>)
    requires
        board.arrangements_of(r),
        counters_consistent(board.grid@, board.graph),
        no_hint_stuck(board.grid@),
        r.admits(p),
    ensures
        board.consistent_placement(p),
{
    assert(open_hints_met(board, p));
    assert forall|h: int, num: nat|
        0 <= h < board.grid@.len() && #[trigger] hint_needs(board.grid@[h], num) implies overlap_count(
        p,
        undecided_neighbors(board.grid@, board.graph, h),
    ) == num by {
        if !hint_with_empties(board.grid@[h]) {
            let u = undecided_neighbors(board.grid@, board.graph, h);
            assert(crate::board::nbr_count(board.grid@, board.graph.spec_neighbors(h), false) == 0);
            assert forall|t: int| 0 <= t < u.len() implies !#[trigger] u[t] by {
                if u[t] {
                    let q = choose|q: int| 0 <= q < board.graph.spec_neighbors(h).len()
                        && board.graph.spec_neighbors(h)[q] == t as usize;
                    lemma_count_lists_kind(board.grid@, board.graph.spec_neighbors(h), q);
                }
            }
            crate::bits::lemma_true_count_zero(Seq::new(p.len(), |i: int| p[i] && u[i]));
        }
    }
}

/// Each constraint as its group set and its number of mines.
pub open spec fn cons_view(cons: Seq<(BitSet, BitSet, usize)>) -> Seq<(Seq<bool>, nat)> {
    Seq::new(cons.len(), |k: int| (cons[k].1@, cons[k].2 as nat))
}

/// The constraint `c` stands for hint `h`: its number is what the hint still needs, and its
/// region is the hint's undecided neighbours.
pub open spec fn hint_for<G: Graph>(grid: Seq<Tile>, graph: G, gs: Seq<Seq<bool>>, c: (Seq<bool>, nat), h: int) -> bool {
    &&& hint_needs(grid[h], c.1)
    &&& region(gs, c.0) == undecided_neighbors(grid, graph, h)
}

/// `p` gives every hint with undecided neighbours the number of mines it still needs among
/// them.
pub open spec fn open_hints_met<G: Graph>(b: Board<G>, p: Seq<bool>) -> bool {
    forall|h: int, num: nat|
        0 <= h < b.grid@.len() && hint_with_empties(b.grid@[h]) && #[trigger] hint_needs(b.grid@[h], num) ==> overlap_count(
            p,
            undecided_neighbors(b.grid@, b.graph, h),
        ) == num
}

/// `p` has one entry per tile and meets every hint with undecided neighbours; nothing is asked
/// of its total or of the tiles outside the hints.
pub open spec fn hint_placement<G: Graph>(b: Board<G>, p: Seq<bool>) -> bool {
    p.len() == b.grid@.len() && open_hints_met(b, p)
}

impl<G: Graph> Board<G> {
    /// `p` places the remaining mines on undecided tiles, and every hint has among its undecided
    /// neighbours as many of them as it still needs.
    pub open spec fn consistent_placement(&self, p: Seq<bool>) -> bool {
        &&& p.len() == self.grid@.len()
        &&& subset(p, empties_of(self.grid@))
        &&& true_count(p) == self.num_mines - tile_count(self.grid@, true)
        &&& forall|h: int, num: nat|
            0 <= h < self.grid@.len() && #[trigger] hint_needs(self.grid@[h], num) ==> overlap_count(
                p,
                undecided_neighbors(self.grid@, self.graph, h),
            ) == num
    }
}

proof fn lemma_hint_constraint_intro<G: Graph>(grid: Seq<Tile>, graph: G, gs: Seq<Seq<bool>>, group_set: Seq<bool>, num: nat, h: int)
    requires
        0 <= h < grid.len(),
        hint_with_empties(grid[h]),
        hint_needs(grid[h], num),
        region(gs, group_set) == undecided_neighbors(grid, graph, h),
    ensures
        hint_constraint(grid, graph, gs, group_set, num),
{
}

/// A placement that meets every hint with undecided neighbours meets the number of every
/// hint's constraint on the constraint's region.
proof fn lemma_constraint_met<G: Graph>(board: Board<G>, gs: Seq<Seq<bool>>, group_set: Seq<bool>, num: nat, p: Seq<bool>)
    requires
        hint_constraint(board.grid@, board.graph, gs, group_set, num),
        hint_placement(board, p),
    ensures
        overlap_count(p, region(gs, group_set)) == num,
{
    let h = choose|h: int|
        0 <= h < board.grid@.len() && hint_with_empties(board.grid@[h]) && #[trigger] hint_needs(board.grid@[h], num)
            && region(gs, group_set) == undecided_neighbors(board.grid@, board.graph, h);
    assert(region(gs, group_set) == undecided_neighbors(board.grid@, board.graph, h));
}

/// The groups of a hint's grouped neighbours cover exactly its undecided neighbours.
proof fn lemma_hint_region<G: Graph>(
    grid: Seq<Tile>,
    graph: G,
    gs: Seq<Seq<bool>>,
    cg: Seq<usize>,
    group_set: Seq<bool>,
    i: int,
)
    requires
        graph.graph_wf(),
        grid.len() == graph.spec_num_tiles(),
        len_fits(grid.len()),
        cg.len() == grid.len(),
        group_set.len() == grid.len(),
        0 <= i < grid.len(),
        hint_with_empties(grid[i]),
        forall|t: int| 0 <= t < grid.len() ==> (#[trigger] cg[t] > 0) == constrained(grid, graph, t),
        forall|t: int| 0 <= t < grid.len() && #[trigger] cg[t] > 0 ==> cg[t] <= gs.len(),
        forall|t: int| 0 <= t < grid.len() ==> #[trigger] cg[t] <= grid.len(),
        forall|g: int, t: int| 0 <= g < gs.len() && 0 <= t < grid.len() ==> (#[trigger] gs[g][t] == (cg[t] == g + 1)),
        forall|g: int| 0 <= g < group_set.len() ==> (#[trigger] group_set[g] == exists|m: int|
            0 <= m < graph.spec_neighbors(i).len() && cg[#[trigger] graph.spec_neighbors(i)[m] as int] == g + 1),
        forall|g: int| 0 <= g < group_set.len() && #[trigger] group_set[g] ==> g < gs.len(),
        forall|a: int, b: int|
            0 <= a < grid.len() && 0 <= b < grid.len() && grid[a] is Empty && grid[b] is Empty && #[trigger] cg[a]
                == #[trigger] cg[b] ==> same_hints(grid, graph, a, b, grid.len() as int),
    ensures
        region(gs, group_set) == undecided_neighbors(grid, graph, i),
{
    let n = grid.len();
    graph.lemma_neighbors_in_range(i);
    let nb = graph.spec_neighbors(i);
    assert forall|t: int| 0 <= t < n implies region(gs, group_set)[t] == undecided_neighbors(grid, graph, i)[t] by {
        lemma_region_iff(gs, group_set, t);
        if region(gs, group_set)[t] {
            let g = choose|g: int| 0 <= g < group_set.len() && group_set[g] && #[trigger] gs[g][t];
            let m = choose|m: int| 0 <= m < nb.len() && cg[#[trigger] nb[m] as int] == g + 1;
            let a = nb[m] as int;
            assert(cg[a] > 0);
            assert(cg[t] > 0);
            assert(grid[a] is Empty);
            assert(grid[t] is Empty);
            assert(cg[a] == cg[t]);
            assert(same_hints(grid, graph, a, t, n as int));
            assert(hint_with_empties(grid[i]));
            assert(nb.contains(a as usize) == nb.contains(t as usize));
            assert(nb[m] == a as usize);
            assert(nb.contains(a as usize));
        }
        if undecided_neighbors(grid, graph, i)[t] {
            assert(nb.contains(t as usize));
            assert(constrained(grid, graph, t));
            let g = cg[t] - 1;
            let m = choose|m: int| 0 <= m < nb.len() && nb[m] == t as usize;
            assert(cg[nb[m] as int] == g + 1);
            assert(group_set[g]);
            assert(gs[g][t]);
        }
    }
    assert(region(gs, group_set) =~= undecided_neighbors(grid, graph, i));
}

impl<G: Graph> Board<G> {
    /// The arrangements of the hints with undecided neighbours, built region by region: each
    /// region takes in turn the hint that overlaps it most, and splits off a new region when the
    /// hint's new tiles do not depend on it.
    #[verifier::spinoff_prover]
    #[verifier::rlimit(40)]
    fn merged_solutionset(&self) -> (r: MineArrangements)
        requires
            self.arrangements_ready(),
        ensures
            forall|k: int| 0 <= k < r.spec_subs().len() ==> on_groups(#[trigger] r.spec_subs()[k], r.spec_groups()),
            forall|p: Seq<bool>| #[trigger] hint_placement(*self, p) ==> forall|k: int|
                0 <= k < r.spec_subs().len() ==> has_match(#[trigger] r.spec_subs()[k], p, r.spec_groups()),
            r.wf(),
            all_canonical(r.spec_subs(), r.spec_groups()),
            forall|p: Seq<bool>|
                p.len() == self.grid@.len() && #[trigger] all_match(r.spec_subs(), p, r.spec_groups()) ==> open_hints_met(
                    *self,
                    p,
                ),
            r.spec_mask() == empties_of(self.grid@),
            r.spec_num_tiles() == self.grid@.len(),
            r.spec_remaining_mines() == self.num_mines - tile_count(self.grid@, true),
            forall|t: int| 0 <= t < self.grid@.len() ==> (constrained(self.grid@, self.graph, t) <==> exists|g: int|
                0 <= g < r.spec_groups().len() && #[trigger] r.spec_groups()[g][t]),
            distinct_neighbors(self.graph) ==> forall|g: int, a: int, b: int|
                0 <= g < r.spec_groups().len() && 0 <= a < self.grid@.len() && 0 <= b < self.grid@.len()
                    && #[trigger] r.spec_groups()[g][a] && self.grid@[b] is Empty ==> (#[trigger] r.spec_groups()[g][b]
                    <==> same_hints(self.grid@, self.graph, a, b, self.grid@.len() as int)),
    {
        let n = self.num_tiles();
        proof {
            assert(len_fits(n as nat)) by (nonlinear_arith)
                requires
                    n * 256 + 1 <= usize::MAX,
                    usize::MAX >= 0xffff_ffff,
            ;
        }
        let cg = self.cell_groups();
        let groups = groups_from_cells(&cg, n);
        let ghost gs = sets_view(groups@);
        let ghost empties = empties_of(self.grid@);
        proof {
            assert forall|g: int, t: int| 0 <= g < gs.len() && 0 <= t < n implies (#[trigger] gs[g][t] == (cg@[t] == g + 1)) by {
                assert(gs[g] == groups@[g]@);
            }
            assert forall|g: int| 0 <= g < gs.len() implies (#[trigger] gs[g]).len() == n by {
                assert(gs[g] == groups@[g]@);
            }
        }
        let mut constraints: Vec<(BitSet, BitSet, usize)> = Vec::new();
        let mut i: usize = 0;
        while i < n
            invariant
                self.arrangements_ready(),
                n == self.grid@.len(),
                len_fits(n as nat),
                gs == sets_view(groups@),
                empties == empties_of(self.grid@),
                cg@.len() == n,
                forall|t: int| 0 <= t < n ==> (#[trigger] cg@[t] > 0) == constrained(self.grid@, self.graph, t),
                forall|t: int| 0 <= t < n ==> #[trigger] cg@[t] <= n,
                forall|g: int| 0 <= g < groups@.len() ==> (#[trigger] groups@[g]).wf() && groups@[g]@.len() == n,
                forall|g: int, t: int| 0 <= g < gs.len() && 0 <= t < n ==> (#[trigger] gs[g][t] == (cg@[t] == g + 1)),
                forall|g: int| 0 <= g < gs.len() ==> (#[trigger] gs[g]).len() == n,
                forall|t: int| 0 <= t < n && #[trigger] cg@[t] > 0 ==> cg@[t] <= groups@.len(),
                disjoint_groups(gs),
                i <= n,
                forall|k: int| 0 <= k < constraints@.len() ==> {
                    &&& (#[trigger] constraints@[k]).0.wf()
                    &&& constraints@[k].0@.len() == n
                    &&& constraints@[k].1.wf()
                    &&& group_set_ok(groups@, constraints@[k].1@)
                    &&& constraints@[k].1@.len() == n
                    &&& subset(region(gs, constraints@[k].1@), empties)
                    &&& hint_constraint(self.grid@, self.graph, gs, constraints@[k].1@, constraints@[k].2 as nat)
                },
                constraints@.len() > 0 ==> true_count(empties) < n,
                forall|h: int| 0 <= h < i && #[trigger] hint_with_empties(self.grid@[h]) ==> exists|k: int|
                    0 <= k < constraints@.len() && #[trigger] hint_for(self.grid@, self.graph, gs, cons_view(constraints@)[k], h),
                distinct_neighbors(self.graph) ==> forall|a: int, b: int|
                    0 <= a < n && 0 <= b < n && self.grid@[a] is Empty && self.grid@[b] is Empty ==> ((
                    #[trigger] cg@[a] == #[trigger] cg@[b]) <==> same_hints(self.grid@, self.graph, a, b, n as int)),
                forall|a: int, b: int|
                    0 <= a < n && 0 <= b < n && self.grid@[a] is Empty && self.grid@[b] is Empty && #[trigger] cg@[a]
                        == #[trigger] cg@[b] ==> same_hints(self.grid@, self.graph, a, b, n as int),
            decreases n - i,
        {
            if let Tile::Hint { remaining_mines, empties: e, .. } = self.grid[i] {
                if e >= 1 {
                    let group_set = self.hint_group_set(&cg, i);
                    let mask = self.hint_mask(&cg, i);
                    proof {
                        assert forall|g: int| 0 <= g < group_set@.len() && #[trigger] group_set@[g] implies g < groups@.len() by {
                            let m = choose|m: int| 0 <= m < self.graph.spec_neighbors(i as int).len()
                                && cg@[#[trigger] self.graph.spec_neighbors(i as int)[m] as int] == g + 1;
                            self.graph.lemma_neighbors_in_range(i as int);
                            let t = self.graph.spec_neighbors(i as int)[m] as int;
                            assert(cg@[t] > 0);
                        }
                        lemma_region_in_empties(gs, group_set@, cg@, self.grid@, self.graph);
                        lemma_empties_short(self.grid@, i as int);
                        lemma_hint_region(self.grid@, self.graph, gs, cg@, group_set@, i as int);
                        assert(hint_needs(self.grid@[i as int], remaining_mines as nat));
                        assert(region(gs, group_set@) == undecided_neighbors(
                            self.grid@, self.graph, i as int));
                        lemma_hint_constraint_intro(self.grid@, self.graph, gs, group_set@, remaining_mines as nat, i as int);
                    }
                    let ghost before = constraints@;
                    constraints.push((mask, group_set, remaining_mines as usize));
                    proof {
                        let cv = cons_view(constraints@);
                        let cb = cons_view(before);
                        assert(cv =~= cb.push((group_set@, remaining_mines as nat)));
                        assert forall|h: int| 0 <= h < i + 1 && #[trigger] hint_with_empties(self.grid@[h]) implies exists|k: int|
                            0 <= k < constraints@.len() && #[trigger] hint_for(self.grid@, self.graph, gs, cv[k], h) by {
                            if h < i {
                                let k = choose|k: int| 0 <= k < before.len() && #[trigger] hint_for(self.grid@, self.graph, gs, cb[k], h);
                                assert(cv[k] == cb[k]);
                            } else {
                                assert(hint_for(self.grid@, self.graph, gs, cv[before.len() as int], h));
                            }
                        }
                    }
                    proof {
                        assert forall|k: int| 0 <= k < constraints@.len() implies hint_constraint(
                            self.grid@, self.graph, gs, (#[trigger] constraints@[k]).1@, constraints@[k].2 as nat) by {
                            if k < before.len() {
                                assert(constraints@[k] == before[k]);
                            }
                        }
                    }
                }
            }
            i = i + 1;
        }
        let mut sub_arrangements: Vec<ArrangementSet> = Vec::new();
        let mut i: usize = 0;
        let ghost all_cons = constraints@;
        let ghost mut done: Seq<(Seq<bool>, nat)> = Seq::empty();
        proof {
            assert(groups_fit(gs, n as nat)) by {
                assert forall|g: int| 0 <= g < gs.len() implies (#[trigger] gs[g]).len() == n by {
                    assert(gs[g] == groups@[g]@);
                }
            }
        }
        if let Some(cons) = constraints.pop() {
            proof {
                assert(cons == all_cons[all_cons.len() - 1]);
            }
            let sub = ArrangementSet::new(&groups, &cons.1, cons.2);
            sub_arrangements.push(sub);
            proof {
                assert forall|x: Seq<bool>| #[trigger] sub.spec_arrangements().contains(x) implies matches_on(x, x, gs, sub.spec_groups()) by {
                    let kx = choose|kx: int| 0 <= kx < sub.spec_arrangements().len() && sub.spec_arrangements()[kx] == x;
                    assert(is_combination(sub.spec_arrangements()[kx], gs, cons.1@, cons.2 as nat));
                    crate::placements::lemma_combination_canonical(x, gs, cons.1@, cons.2 as nat);
                }
                assert(all_canonical(sub_arrangements@, gs)) by {
                    assert(sub_arrangements@[0] == sub);
                }
                done = seq![(cons.1@, cons.2 as nat)];
                assert(names_groups(cons.1@, gs));
                assert forall|p: Seq<bool>| p.len() == n && #[trigger] all_match(sub_arrangements@, p, gs) implies forall|d: int|
                    0 <= d < done.len() ==> overlap_count(p, region(gs, (#[trigger] done[d]).0)) == done[d].1 by {
                    assert(has_match(sub_arrangements@[0], p, gs));
                    let c = choose|c: Seq<bool>| #[trigger] sub.spec_arrangements().contains(c) && matches_on(c, p, gs, sub.spec_groups());
                    let kc = choose|kc: int| 0 <= kc < sub.spec_arrangements().len() && sub.spec_arrangements()[kc] == c;
                    assert(is_combination(sub.spec_arrangements()[kc], gs, cons.1@, cons.2 as nat));
                    lemma_combination_in_region(c, gs, cons.1@, cons.2 as nat);
                    crate::placements::lemma_match_region_count(c, p, gs, cons.1@, cons.1@);
                    crate::placements::lemma_combination_count(c, gs, cons.1@, cons.2 as nat);
                }
                let cv0 = cons_view(all_cons);
                let cv1 = cons_view(constraints@);
                assert forall|h: int| 0 <= h < n && #[trigger] hint_with_empties(self.grid@[h]) implies (exists|k: int|
                    0 <= k < constraints@.len() && #[trigger] hint_for(self.grid@, self.graph, gs, cons_view(constraints@)[k], h))
                    || (exists|d: int| 0 <= d < done.len() && #[trigger] hint_for(self.grid@, self.graph, gs, done[d], h)) by {
                    let k = choose|k: int| 0 <= k < all_cons.len() && #[trigger] hint_for(self.grid@, self.graph, gs, cv0[k], h);
                    if k < all_cons.len() - 1 {
                        assert(cv1[k] == cv0[k]);
                    } else {
                        assert(done[0] == cv0[k]);
                    }
                }
            }
            proof {
                assert(sub_arrangements@[0] == sub);
                assert(hint_constraint(self.grid@, self.graph, gs, cons.1@, cons.2 as nat));
                assert forall|p: Seq<bool>| #[trigger] hint_placement(*self, p) implies has_match(sub, p, gs) by {
                    lemma_constraint_met(*self, gs, cons.1@, cons.2 as nat, p);
                    lemma_all_combinations_match(sub, gs, cons.1@, cons.2 as nat, p);
                }
            }
        }
        proof {
            assert forall|k: int| 0 <= k < constraints@.len() implies constraints@[k] == all_cons[k] by {}
        }
        while i < sub_arrangements.len()
            invariant
                len_fits(n as nat),
                gs == sets_view(groups@),
                empties == empties_of(self.grid@),
                empties.len() == n,
                forall|g: int| 0 <= g < groups@.len() ==> (#[trigger] groups@[g]).wf() && groups@[g]@.len() == n,
                disjoint_groups(gs),
                forall|k: int| 0 <= k < constraints@.len() ==> {
                    &&& (#[trigger] constraints@[k]).0.wf()
                    &&& constraints@[k].0@.len() == n
                    &&& constraints@[k].1.wf()
                    &&& group_set_ok(groups@, constraints@[k].1@)
                    &&& constraints@[k].1@.len() == n
                    &&& subset(region(gs, constraints@[k].1@), empties)
                },
                forall|k: int| 0 <= k < sub_arrangements@.len() ==> (#[trigger] sub_arrangements@[k]).wf_in(
                    n as nat,
                    groups@.len() as nat,
                ) && subset(sub_arrangements@[k].spec_mask(), empties),
                sub_arrangements@.len() > 0 ==> true_count(empties) < n,
                constraints@.len() > 0 ==> i < sub_arrangements@.len(),
                forall|k: int| 0 <= k < constraints@.len() ==> hint_constraint(
                    self.grid@,
                    self.graph,
                    gs,
                    (#[trigger] constraints@[k]).1@,
                    constraints@[k].2 as nat,
                ),
                forall|k: int| 0 <= k < sub_arrangements@.len() ==> on_groups(#[trigger] sub_arrangements@[k], gs),
                forall|p: Seq<bool>| #[trigger] hint_placement(*self, p) ==> forall|k: int|
                    0 <= k < sub_arrangements@.len() ==> has_match(#[trigger] sub_arrangements@[k], p, gs),
                groups_fit(gs, n as nat),
                n == self.grid@.len(),
                all_canonical(sub_arrangements@, gs),
                forall|h: int| 0 <= h < n && #[trigger] hint_with_empties(self.grid@[h]) ==> (exists|k: int|
                    0 <= k < constraints@.len() && #[trigger] hint_for(self.grid@, self.graph, gs, cons_view(constraints@)[k], h))
                    || (exists|d: int| 0 <= d < done.len() && #[trigger] hint_for(self.grid@, self.graph, gs, done[d], h)),
                forall|p: Seq<bool>| p.len() == n && #[trigger] all_match(sub_arrangements@, p, gs) ==> forall|d: int|
                    0 <= d < done.len() ==> overlap_count(p, region(gs, (#[trigger] done[d]).0)) == done[d].1,
            ensures
                constraints@.len() == 0,
            decreases constraints@.len(), sub_arrangements@.len() - i,
        {
            if constraints.len() == 0 {
                break;
            }
            proof {
                assert(sub_arrangements@[i as int].wf_in(n as nat, groups@.len() as nat));
            }
            let mut pos: usize = 0;
            let mut count: usize = 0;
            let mut j: usize = 0;
            while j < constraints.len()
                invariant
                    i < sub_arrangements@.len(),
                    sub_arrangements@[i as int].wf_in(n as nat, groups@.len() as nat),
                    forall|k: int| 0 <= k < constraints@.len() ==> (#[trigger] constraints@[k]).0.wf() && constraints@[k].0@.len() == n,
                    j <= constraints@.len(),
                    constraints@.len() > 0,
                    pos < constraints@.len(),
                decreases constraints.len() - j,
            {
                let c = constraints[j].0.count_overlap_ones(&sub_arrangements[i].mask);
                if c >= count {
                    pos = j;
                    count = c;
                }
                j = j + 1;
            }
            if count == 0 && i < sub_arrangements.len() - 1 {
                i = i + 1;
            } else {
                let ghost cons_before = constraints@;
                let cons = constraints.swap_remove(pos);
                let ghost cons_all = constraints@;
                proof {
                    assert(cons == cons_before[pos as int]);
                    assert forall|k: int| 0 <= k < constraints@.len() implies hint_constraint(
                        self.grid@, self.graph, gs, (#[trigger] constraints@[k]).1@, constraints@[k].2 as nat) by {
                        if k == pos {
                            assert(constraints@[k] == cons_before[cons_before.len() - 1]);
                        } else {
                            assert(constraints@[k] == cons_before[k]);
                        }
                    }
                }
                proof {
                    assert(cons.1.wf() && group_set_ok(groups@, cons.1@) && cons.1@.len() == n);
                }
                let ghost done0 = done;
                proof {
                    done = done.push((cons.1@, cons.2 as nat));
                    let cb = cons_view(cons_before);
                    let ca = cons_view(constraints@);
                    assert forall|h: int| 0 <= h < n && #[trigger] hint_with_empties(self.grid@[h]) implies (exists|k: int|
                        0 <= k < constraints@.len() && #[trigger] hint_for(self.grid@, self.graph, gs, cons_view(constraints@)[k], h))
                        || (exists|d: int| 0 <= d < done.len() && #[trigger] hint_for(self.grid@, self.graph, gs, done[d], h)) by {
                        if exists|k: int| 0 <= k < cons_before.len() && #[trigger] hint_for(self.grid@, self.graph, gs, cb[k], h) {
                            let k = choose|k: int| 0 <= k < cons_before.len() && #[trigger] hint_for(self.grid@, self.graph, gs, cb[k], h);
                            if k == pos {
                                assert(done[done0.len() as int] == cb[k]);
                            } else if k == cons_before.len() - 1 {
                                assert(ca[pos as int] == cb[k]);
                            } else {
                                assert(ca[k] == cb[k]);
                            }
                        } else {
                            let d = choose|d: int| 0 <= d < done0.len() && #[trigger] hint_for(self.grid@, self.graph, gs, done0[d], h);
                            assert(done[d] == done0[d]);
                        }
                    }
                }
                let ghost s_start = sub_arrangements@;
                let mut cur = ArrangementSet::empty(n);
                sub_arrangements.set_and_swap(i, &mut cur);
                let ghost sb = sub_arrangements@;
                let ghost cur0 = cur;
                proof {
                    assert(cur0 == s_start[i as int]);
                    assert(groups_fit(gs, n as nat)) by {
                        assert forall|g: int| 0 <= g < gs.len() implies (#[trigger] gs[g]).len() == n by {
                            assert(gs[g] == groups@[g]@);
                        }
                    }
                    assert(names_groups(cons.1@, gs));
                }
                proof {
                    assert(cur0.wf_in(n as nat, groups@.len() as nat));
                    assert(subset(cur0.spec_mask(), empties));
                }
                let res = cur.add(&groups, &cons.1, cons.2);
                proof {
                    lemma_ones_of(cons.1@);
                    let fresh = fresh_groups(cur0.spec_groups(), cons.1@);
                    assert forall|t: int| 0 <= t < n && #[trigger] region(gs, fresh)[t] implies empties[t] by {
                        let order = ones_of(fresh);
                        lemma_ones_of(fresh);
                        let jj = choose|jj: int| 0 <= jj < order.len() && #[trigger] gs[order[jj] as int][t];
                        let g = order[jj] as int;
                        assert(fresh[g] && cons.1@[g]);
                        assert(ones_of(cons.1@).contains(g as usize));
                        let jk = choose|jk: int| 0 <= jk < ones_of(cons.1@).len() && ones_of(cons.1@)[jk] == g as usize;
                        assert(gs[ones_of(cons.1@)[jk] as int][t]);
                        assert(region(gs, cons.1@)[t]);
                    }
                }
                let ghost cur1 = cur;
                sub_arrangements.set_and_swap(i, &mut cur);
                proof {
                    assert(sub_arrangements@ == sb.update(i as int, cur1));
                    assert forall|k: int| 0 <= k < sub_arrangements@.len() implies (#[trigger] sub_arrangements@[k]).wf_in(
                        n as nat,
                        groups@.len() as nat,
                    ) && subset(sub_arrangements@[k].spec_mask(), empties) by {
                        if k != i {
                            assert(sub_arrangements@[k] == sb[k]);
                        }
                    }
                }
                match res {
                    Ok(()) => {
                        proof {
                            let s1 = sub_arrangements@;
                            crate::placements::lemma_region_extend(gs, cur0.spec_groups(), cons.1@);
                            assert(on_groups(cur1, gs));
                            assert forall|k: int| 0 <= k < s1.len() implies on_groups(#[trigger] s1[k], gs) by {
                                if k != i {
                                    assert(s1[k] == s_start[k]);
                                }
                            }
                            crate::placements::lemma_add_joined_canonical(cur0, cur1, gs, cons.1@, cons.2 as nat);
                            assert forall|k: int| 0 <= k < s1.len() implies canonical_set(#[trigger] s1[k], gs) by {
                                if k != i {
                                    assert(s1[k] == s_start[k]);
                                }
                            }
                            assert forall|p: Seq<bool>| p.len() == n && #[trigger] all_match(s1, p, gs) implies forall|d: int|
                                0 <= d < done.len() ==> overlap_count(p, region(gs, (#[trigger] done[d]).0)) == done[d].1 by {
                                assert(has_match(s1[i as int], p, gs));
                                crate::placements::lemma_add_joined_back(cur0, cur1, gs, cons.1@, cons.2 as nat, p);
                                assert forall|k: int| 0 <= k < s_start.len() implies has_match(#[trigger] s_start[k], p, gs) by {
                                    if k != i {
                                        assert(s1[k] == s_start[k]);
                                        assert(has_match(s1[k], p, gs));
                                    }
                                }
                                assert(all_match(s_start, p, gs));
                                assert forall|d: int| 0 <= d < done.len() implies overlap_count(p, region(gs, (#[trigger] done[d]).0)) == done[d].1 by {
                                    if d < done0.len() {
                                        assert(done[d] == done0[d]);
                                    }
                                }
                            }
                            assert forall|p: Seq<bool>| #[trigger] hint_placement(*self, p) implies forall|k: int|
                                0 <= k < s1.len() ==> has_match(#[trigger] s1[k], p, gs) by {
                                assert(has_match(s_start[i as int], p, gs));
                                lemma_constraint_met(*self, gs, cons.1@, cons.2 as nat, p);
                                crate::placements::lemma_add_joined(cur0, cur1, gs, cons.1@, cons.2 as nat, p);
                                assert forall|k: int| 0 <= k < s1.len() implies has_match(#[trigger] s1[k], p, gs) by {
                                    if k != i {
                                        assert(s1[k] == s_start[k]);
                                    }
                                }
                            }
                        }
                    },
                    Err(sub) => {
                        let ghost s1 = sub_arrangements@;
                        sub_arrangements.push(sub);
                        proof {
                            assert forall|k: int| 0 <= k < sub_arrangements@.len() implies (#[trigger] sub_arrangements@[k]).wf_in(
                                n as nat,
                                groups@.len() as nat,
                            ) && subset(sub_arrangements@[k].spec_mask(), empties) by {
                                if k == sub_arrangements@.len() - 1 {
                                    assert(sub_arrangements@[k] == sub);
                                }
                            }
                            let s2 = sub_arrangements@;
                            assert(on_groups(cur1, gs));
                            assert(on_groups(sub, gs));
                            assert forall|k: int| 0 <= k < s2.len() implies on_groups(#[trigger] s2[k], gs) by {
                                if k == s2.len() - 1 {
                                    assert(s2[k] == sub);
                                } else if k != i {
                                    assert(s2[k] == s_start[k]);
                                } else {
                                    assert(s2[k] == cur1);
                                }
                            }
                            crate::placements::lemma_add_split_canonical(cur0, cur1, sub, gs, cons.1@, cons.2 as nat);
                            assert forall|k: int| 0 <= k < s2.len() implies canonical_set(#[trigger] s2[k], gs) by {
                                if k == s2.len() - 1 {
                                    assert(s2[k] == sub);
                                } else if k != i {
                                    assert(s2[k] == s_start[k]);
                                } else {
                                    assert(s2[k] == cur1);
                                }
                            }
                            assert forall|p: Seq<bool>| p.len() == n && #[trigger] all_match(s2, p, gs) implies forall|d: int|
                                0 <= d < done.len() ==> overlap_count(p, region(gs, (#[trigger] done[d]).0)) == done[d].1 by {
                                assert(s2[i as int] == cur1);
                                assert(has_match(s2[i as int], p, gs));
                                assert(s2[s2.len() - 1] == sub);
                                assert(has_match(s2[s2.len() - 1], p, gs));
                                crate::placements::lemma_add_split_back(cur0, cur1, sub, gs, cons.1@, cons.2 as nat, p);
                                assert forall|k: int| 0 <= k < s_start.len() implies has_match(#[trigger] s_start[k], p, gs) by {
                                    if k != i {
                                        assert(s2[k] == s_start[k]);
                                        assert(has_match(s2[k], p, gs));
                                    }
                                }
                                assert(all_match(s_start, p, gs));
                                assert forall|d: int| 0 <= d < done.len() implies overlap_count(p, region(gs, (#[trigger] done[d]).0)) == done[d].1 by {
                                    if d < done0.len() {
                                        assert(done[d] == done0[d]);
                                    }
                                }
                            }
                            assert forall|p: Seq<bool>| #[trigger] hint_placement(*self, p) implies forall|k: int|
                                0 <= k < s2.len() ==> has_match(#[trigger] s2[k], p, gs) by {
                                assert(has_match(s_start[i as int], p, gs));
                                lemma_constraint_met(*self, gs, cons.1@, cons.2 as nat, p);
                                crate::placements::lemma_add_split(cur0, cur1, sub, gs, cons.1@, cons.2 as nat, p);
                                assert forall|k: int| 0 <= k < s2.len() implies has_match(#[trigger] s2[k], p, gs) by {
                                    if k == s2.len() - 1 {
                                        assert(s2[k] == sub);
                                    } else if k != i {
                                        assert(s2[k] == s_start[k]);
                                    } else {
                                        assert(s2[k] == cur1);
                                    }
                                }
                            }
                        }
                    },
                }
            }
        }
        let mask = self.all_empties();
        let remaining_mines = self.remaining_mines();
        let r = MineArrangements { groups, sub_arrangements, mask, remaining_mines, num_tiles: n };
        proof {
            assert forall|t: int| 0 <= t < n implies (constrained(self.grid@, self.graph, t) <==> exists|g: int|
                0 <= g < r.spec_groups().len() && #[trigger] r.spec_groups()[g][t]) by {
                if constrained(self.grid@, self.graph, t) {
                    let g = cg@[t] - 1;
                    assert(r.spec_groups()[g][t]);
                }
                if exists|g: int| 0 <= g < r.spec_groups().len() && #[trigger] r.spec_groups()[g][t] {
                    let g = choose|g: int| 0 <= g < r.spec_groups().len() && #[trigger] r.spec_groups()[g][t];
                    assert(r.groups@[g]@[t]);
                }
            }
            if distinct_neighbors(self.graph) {
                assert forall|g: int, a: int, b: int|
                    0 <= g < r.spec_groups().len() && 0 <= a < n && 0 <= b < n && #[trigger] r.spec_groups()[g][a]
                        && self.grid@[b] is Empty implies (#[trigger] r.spec_groups()[g][b] <==> same_hints(
                    self.grid@,
                    self.graph,
                    a,
                    b,
                    n as int,
                )) by {
                    assert(r.spec_groups()[g] == groups@[g]@);
                    assert(cg@[a] == g + 1);
                    assert(cg@[a] > 0);
                    assert(self.grid@[a] is Empty);
                    assert((cg@[a] == cg@[b]) <==> same_hints(self.grid@, self.graph, a, b, n as int));
                }
            }
        }
        r
    }

    /// What `solutionset` states of its result: the arrangements of the remaining mines, region
    /// by region, with no two regions sharing a tile, admitting every consistent placement.
    pub open spec fn arrangements_of(&self, r: MineArrangements) -> bool {
        &&& r.wf()
        &&& r.spec_mask() == empties_of(self.grid@)
        &&& r.spec_num_tiles() == self.grid@.len()
        &&& r.spec_remaining_mines() == self.num_mines - tile_count(self.grid@, true)
        &&& forall|t: int| 0 <= t < self.grid@.len() ==> (constrained(self.grid@, self.graph, t) <==> exists|g: int|
            0 <= g < r.spec_groups().len() && #[trigger] r.spec_groups()[g][t])
        &&& r.exact()
        &&& forall|p: Seq<bool>| #[trigger] self.consistent_placement(p) ==> r.admits(p)
        &&& forall|p: Seq<bool>| #[trigger] r.admits(p) ==> open_hints_met(*self, p)
        &&& all_canonical(r.spec_subs(), r.spec_groups())
    }

    /// The possible arrangements of the remaining mines: the regions of the hints, merged where
    /// they share tiles, without the arrangements whose mine counts no total can use.
    pub fn solutionset(&self) -> (r: MineArrangements)
        requires
            self.arrangements_ready(),
        ensures
            self.arrangements_of(r),
            r.wf(),
            r.spec_mask() == empties_of(self.grid@),
            r.spec_num_tiles() == self.grid@.len(),
            r.spec_remaining_mines() == self.num_mines - tile_count(self.grid@, true),
            forall|t: int| 0 <= t < self.grid@.len() ==> (constrained(self.grid@, self.graph, t) <==> exists|g: int|
                0 <= g < r.spec_groups().len() && #[trigger] r.spec_groups()[g][t]),
            distinct_neighbors(self.graph) ==> forall|g: int, a: int, b: int|
                0 <= g < r.spec_groups().len() && 0 <= a < self.grid@.len() && 0 <= b < self.grid@.len()
                    && #[trigger] r.spec_groups()[g][a] && self.grid@[b] is Empty ==> (#[trigger] r.spec_groups()[g][b]
                    <==> same_hints(self.grid@, self.graph, a, b, self.grid@.len() as int)),
            r.exact(),
            forall|p: Seq<bool>| #[trigger] self.consistent_placement(p) ==> r.admits(p),
            forall|p: Seq<bool>| #[trigger] r.admits(p) ==> open_hints_met(*self, p),
            all_canonical(r.spec_subs(), r.spec_groups()),
            counters_consistent(self.grid@, self.graph) && no_hint_stuck(self.grid@)
                ==> forall|p: Seq<bool>| #[trigger] r.admits(p) <==> self.consistent_placement(p),
    {
        let mut out = self.merged_solutionset();
        let ghost m0 = out;
        out.merge_all_subsolutions();
        let ghost m1 = out;
        out.filter_summaries();
        proof {
            assert(all_on_groups(m0.spec_subs(), m0.spec_groups()));
            assert(m1.exact());
            assert forall|k: int| 0 <= k < out.spec_subs().len() implies on_groups(#[trigger] out.spec_subs()[k], out.spec_groups()) by {
                assert(on_groups(m1.spec_subs()[k], m1.spec_groups()));
            }
            assert forall|a: int, b: int, t: int|
                0 <= a < out.spec_subs().len() && 0 <= b < out.spec_subs().len() && a != b && 0 <= t < out.spec_num_tiles()
                    implies !(#[trigger] out.spec_subs()[a].spec_mask()[t] && #[trigger] out.spec_subs()[b].spec_mask()[t]) by {
                assert(!(m1.spec_subs()[a].spec_mask()[t] && m1.spec_subs()[b].spec_mask()[t]));
            }
            assert(out.exact());
            assert forall|p: Seq<bool>| #[trigger] self.consistent_placement(p) implies out.admits(p) by {
                assert(hint_placement(*self, p));
                assert(all_match(m0.spec_subs(), p, m0.spec_groups()));
                assert(all_match(m1.spec_subs(), p, m1.spec_groups()));
                assert(m1.admits(p));
                MineArrangements::lemma_filter_keeps_match(m1, out, p);
            }
            assert forall|k: int| 0 <= k < out.spec_subs().len() implies canonical_set(#[trigger] out.spec_subs()[k], out.spec_groups()) by {
                assert(canonical_set(m1.spec_subs()[k], m1.spec_groups()));
                assert forall|a: Seq<bool>| #[trigger] out.spec_subs()[k].spec_arrangements().contains(a) implies matches_on(
                    a, a, out.spec_groups(), out.spec_subs()[k].spec_groups()) by {
                    assert(m1.spec_subs()[k].spec_arrangements().contains(a));
                }
            }
            // what every admitted placement meets
            assert forall|p: Seq<bool>| #[trigger] out.admits(p) implies open_hints_met(*self, p) by {
                assert forall|k: int| 0 <= k < m1.spec_subs().len() implies has_match(#[trigger] m1.spec_subs()[k], p, m1.spec_groups()) by {
                    assert(has_match(out.spec_subs()[k], p, out.spec_groups()));
                    let a = choose|a: Seq<bool>| #[trigger] out.spec_subs()[k].spec_arrangements().contains(a) && matches_on(
                        a, p, out.spec_groups(), out.spec_subs()[k].spec_groups());
                    assert(m1.spec_subs()[k].spec_arrangements().contains(a));
                }
                assert(all_match(m1.spec_subs(), p, m1.spec_groups()));
                assert(all_match(m0.spec_subs(), p, m0.spec_groups()));
            }
            if counters_consistent(self.grid@, self.graph) && no_hint_stuck(self.grid@) {
                assert(self.arrangements_of(out));
                assert forall|p: Seq<bool>| #[trigger] out.admits(p) implies self.consistent_placement(p) by {
                    law_admitted_consistent(*self, out, p);
                }
            }
        }
        out
    }
}


// ---------------------------------------------------------------------------------------------
// Read access for the counting and sampling code

impl ArrangementSet {
    /// Every set the arrangement set holds is well formed.
    pub closed spec fn storage_ok(&self) -> bool {
        &&& self.mask.wf()
        &&& self.groups.wf()
        &&& forall|k: int| 0 <= k < self.arrangements@.len() ==> (#[trigger] self.arrangements@[k]).wf()
    }

    /// The region's tiles.
    pub(crate) fn mask_ref(&self) -> (r: &BitSet)
        requires
            self.storage_ok(),
        ensures
            r.wf(),
            r@ == self.spec_mask(),
    {
        &self.mask
    }

    /// The region's group indices.
    pub(crate) fn groups_ref(&self) -> (r: &BitSet)
        requires
            self.storage_ok(),
        ensures
            r.wf(),
            r@ == self.spec_groups(),
    {
        &self.groups
    }

    /// The arrangements.
    pub(crate) fn arrangements_ref(&self) -> (r: &Vec<BitSet>)
        requires
            self.storage_ok(),
        ensures
            sets_view(r@) == self.spec_arrangements(),
            forall|k: int| 0 <= k < r@.len() ==> (#[trigger] r@[k]).wf(),
    {
        &self.arrangements
    }

    /// What `wf_in` says, spelled out.
    pub(crate) proof fn lemma_wf_in(&self, n: nat, num_groups: nat)
        requires
            self.wf_in(n, num_groups),
        ensures
            self.storage_ok(),
            self.spec_mask().len() == n,
            self.spec_groups().len() == n,
            forall|g: int| 0 <= g < n && #[trigger] self.spec_groups()[g] ==> g < num_groups,
            forall|k: int| 0 <= k < self.spec_arrangements().len() ==> (#[trigger] self.spec_arrangements()[k]).len() == n
                && subset(self.spec_arrangements()[k], self.spec_mask()),
    {
        assert forall|k: int| 0 <= k < self.spec_arrangements().len() implies (#[trigger] self.spec_arrangements()[k]).len() == n
            && subset(self.spec_arrangements()[k], self.spec_mask()) by {
            assert(self.spec_arrangements()[k] == self.arrangements@[k]@);
        }
    }
}

impl MineArrangements {
    /// Every set held is well formed.
    pub closed spec fn storage_ok(&self) -> bool {
        &&& self.mask.wf()
        &&& forall|g: int| 0 <= g < self.groups@.len() ==> (#[trigger] self.groups@[g]).wf()
    }

    /// The groups of tiles, as sets.
    pub closed spec fn groups_spec_vec(&self) -> Seq<BitSet> {
        self.groups@
    }

    /// The groups of tiles.
    pub(crate) fn groups_ref(&self) -> (r: &Vec<BitSet>)
        requires
            self.storage_ok(),
        ensures
            r@ == self.groups_spec_vec(),
            sets_view(r@) == self.spec_groups(),
            forall|g: int| 0 <= g < r@.len() ==> (#[trigger] r@[g]).wf(),
    {
        &self.groups
    }

    /// The regions.
    pub(crate) fn subs_ref(&self) -> (r: &Vec<ArrangementSet>)
        ensures
            r@ == self.spec_subs(),
    {
        &self.sub_arrangements
    }

    /// The undecided tiles.
    pub(crate) fn mask_ref(&self) -> (r: &BitSet)
        requires
            self.storage_ok(),
        ensures
            r.wf(),
            r@ == self.spec_mask(),
    {
        &self.mask
    }

    /// The number of mines not yet flagged.
    pub fn remaining_mines(&self) -> (r: usize)
        ensures
            r == self.spec_remaining_mines(),
    {
        self.remaining_mines
    }

    /// The number of tiles of the board.
    pub fn num_tiles(&self) -> (r: usize)
        ensures
            r == self.spec_num_tiles(),
    {
        self.num_tiles
    }

    /// The undecided tiles outside every region.
    pub(crate) fn unconstrained(&self) -> (r: BitSet)
        requires
            self.wf(),
        ensures
            r.wf(),
            r@ == self.spec_unconstrained(),
            r@.len() == self.spec_num_tiles(),
            subset(r@, self.spec_mask()),
    {
        let r = self.uncontrained_empties();
        proof {
            assert forall|t: int| 0 <= t < r@.len() && #[trigger] r@[t] implies t < self.mask@.len() && self.mask@[t] by {}
        }
        r
    }

    /// The tiles outside every region, spelled out.
    pub(crate) proof fn lemma_unconstrained_is(&self)
        ensures
            self.spec_unconstrained() == minus_all(
                self.spec_mask(),
                Seq::new(self.spec_subs().len(), |k: int| self.spec_subs()[k].spec_mask()),
            ),
    {
        assert(Seq::new(self.sub_arrangements@.len(), |k: int| self.sub_arrangements@[k].mask@) =~= Seq::new(
            self.spec_subs().len(),
            |k: int| self.spec_subs()[k].spec_mask(),
        ));
    }

    /// The tiles outside every region are undecided tiles.
    pub(crate) proof fn lemma_unconstrained_in_mask(&self)
        ensures
            self.spec_unconstrained().len() == self.spec_mask().len(),
            forall|t: int| 0 <= t < self.spec_mask().len() && #[trigger] self.spec_unconstrained()[t] ==> self.spec_mask()[t],
    {
    }

    /// What `wf` says, spelled out.
    pub(crate) proof fn lemma_wf(&self)
        requires
            self.wf(),
        ensures
            self.storage_ok(),
            self.spec_mask().len() == self.spec_num_tiles(),
            len_fits(self.spec_num_tiles()),
            sets_view(self.groups_spec_vec()) == self.spec_groups(),
            forall|g: int| 0 <= g < self.groups_spec_vec().len() ==> (#[trigger] self.groups_spec_vec()[g]).wf()
                && self.groups_spec_vec()[g]@.len() == self.spec_num_tiles(),
            forall|g: int| 0 <= g < self.spec_groups().len() ==> (#[trigger] self.spec_groups()[g]).len() == self.spec_num_tiles(),
            disjoint_groups(self.spec_groups()),
            forall|k: int| 0 <= k < self.spec_subs().len() ==> (#[trigger] self.spec_subs()[k]).wf_in(
                self.spec_num_tiles(),
                self.spec_groups().len(),
            ) && subset(self.spec_subs()[k].spec_mask(), self.spec_mask()),
            self.spec_subs().len() > 0 ==> true_count(self.spec_mask()) < self.spec_num_tiles(),
    {
        assert forall|g: int| 0 <= g < self.spec_groups().len() implies (#[trigger] self.spec_groups()[g]).len() == self.spec_num_tiles() by {
            assert(self.spec_groups()[g] == self.groups@[g]@);
        }
    }

    /// The tiles outside every region are the tiles of the mask that no region holds.
    pub(crate) proof fn lemma_unconstrained_rest(&self)
        ensures
            self.spec_unconstrained() == minus_all(
                self.spec_mask(),
                Seq::new(self.spec_subs().len(), |k: int| self.spec_subs()[k].spec_mask()),
            ),
    {
        assert(Seq::new(self.sub_arrangements@.len(), |k: int| self.sub_arrangements@[k].mask@) =~= Seq::new(
            self.spec_subs().len(),
            |k: int| self.spec_subs()[k].spec_mask(),
        ));
    }
}

} // verus!
