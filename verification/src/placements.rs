use vstd::prelude::*;
use crate::bits::{true_count, ones_of, lemma_ones_of, indicator, lemma_indicator_count, lemma_true_count_subset};
use crate::bitset::len_fits;
use crate::combinations::{first_n, canon, caps_of, valid, total, psum, groups_union, is_combination, groups_ok};
use crate::arrangements::{
    overlap_count, region, disjoint_groups, subset, or_seq, minus_seq, agree_on, ArrangementSet, fits_hint,
    fresh_groups, shared_groups, fresh_mines, hint_extension, union_seq,
};

verus! {

// Placements of mines and their canonical forms. A placement is one set of tiles holding
// mines. Within a group every tile is constrained by the same hints, so only the number of
// mines a placement puts on each group matters to the hints; the canonical form of a placement
// puts that number of mines on the first tiles of each group.

/// `a` holds, on every group of `group_set`, the canonical form of `p`: the group's first
/// tiles, as many as `p` has mines there.
pub open spec fn matches_on(a: Seq<bool>, p: Seq<bool>, gs: Seq<Seq<bool>>, group_set: Seq<bool>) -> bool {
    forall|g: int, t: int|
        #![trigger group_set[g], gs[g][t]]
        0 <= g < group_set.len() && group_set[g] && g < gs.len() && 0 <= t < gs[g].len() && gs[g][t] ==> a[t]
            == first_n(gs[g], overlap_count(p, gs[g]) as int)[t]
}

/// The number of mines `x` has on each group listed in `order`.
pub open spec fn counts_of(x: Seq<bool>, gs: Seq<Seq<bool>>, order: Seq<usize>) -> Seq<usize> {
    Seq::new(order.len(), |j: int| overlap_count(x, gs[order[j] as int]) as usize)
}

/// The canonical form of `p` on the groups of `group_set`.
pub open spec fn canonical(p: Seq<bool>, gs: Seq<Seq<bool>>, group_set: Seq<bool>) -> Seq<bool> {
    canon(gs, ones_of(group_set), counts_of(p, gs, ones_of(group_set)), group_set.len())
}

/// Two sets with no common position: a set meets their union where it meets either.
pub proof fn lemma_overlap_or(x: Seq<bool>, a: Seq<bool>, b: Seq<bool>)
    requires
        a.len() == x.len(),
        b.len() == x.len(),
        forall|i: int| 0 <= i < x.len() ==> !(#[trigger] a[i] && b[i]),
    ensures
        overlap_count(x, or_seq(a, b)) == overlap_count(x, a) + overlap_count(x, b),
{
    let xa = Seq::new(x.len(), |i: int| x[i] && a[i]);
    let xb = Seq::new(x.len(), |i: int| x[i] && b[i]);
    crate::combinations::lemma_true_count_disjoint_or(xa, xb);
    assert(Seq::new(x.len(), |i: int| x[i] && or_seq(a, b)[i]) =~= Seq::new(xa.len(), |i: int| xa[i] || xb[i]));
}

/// Sets that agree on `m` meet it equally often.
pub proof fn lemma_overlap_agree(a: Seq<bool>, b: Seq<bool>, m: Seq<bool>)
    requires
        a.len() == b.len(),
        m.len() == a.len(),
        forall|i: int| 0 <= i < a.len() && #[trigger] m[i] ==> a[i] == b[i],
    ensures
        overlap_count(a, m) == overlap_count(b, m),
{
    assert(Seq::new(a.len(), |i: int| a[i] && m[i]) =~= Seq::new(b.len(), |i: int| b[i] && m[i]));
}

/// A set meets `g` at most as often as `g` has elements.
pub proof fn lemma_overlap_le(p: Seq<bool>, g: Seq<bool>)
    requires
        p.len() == g.len(),
    ensures
        overlap_count(p, g) <= true_count(g),
{
    lemma_true_count_subset(Seq::new(p.len(), |i: int| p[i] && g[i]), g);
}

/// A set meeting `g` in no position holds none of its elements; one meeting it in all of
/// them holds them all.
pub proof fn lemma_overlap_extremes(p: Seq<bool>, g: Seq<bool>)
    requires
        p.len() == g.len(),
    ensures
        overlap_count(p, g) == 0 ==> forall|t: int| 0 <= t < g.len() && #[trigger] g[t] ==> !p[t],
        overlap_count(p, g) == true_count(g) ==> forall|t: int| 0 <= t < g.len() && #[trigger] g[t] ==> p[t],
{
    let pg = Seq::new(p.len(), |i: int| p[i] && g[i]);
    crate::bits::lemma_true_count_zero(pg);
    if overlap_count(p, g) == 0 {
        assert forall|t: int| 0 <= t < g.len() && #[trigger] g[t] implies !p[t] by {
            assert(!pg[t]);
        }
    }
    if overlap_count(p, g) == true_count(g) {
        assert forall|t: int| 0 <= t < g.len() && #[trigger] g[t] implies p[t] by {
            if !p[t] {
                crate::arrangements::lemma_true_count_strict(pg, g, t);
            }
        }
    }
}

/// The first `k` tiles of a group lie in it.
pub proof fn lemma_first_n_in(g: Seq<bool>, k: int, t: int)
    requires
        g.len() <= usize::MAX,
        0 <= k,
        0 <= t < g.len(),
        first_n(g, k)[t],
    ensures
        g[t],
{
    lemma_ones_of(g);
    let o = ones_of(g);
    let lim = if k < o.len() { k } else { o.len() as int };
    assert(o.take(lim).contains(t as usize));
    let m = choose|m: int| 0 <= m < o.take(lim).len() && o.take(lim)[m] == t as usize;
    assert(o.take(lim)[m] == o[m]);
    assert(o[m] == t as usize);
}

/// The first `k` tiles of a group, for `k` up to its size, are `k` of its tiles.
pub proof fn lemma_first_n(g: Seq<bool>, k: int)
    requires
        g.len() <= usize::MAX,
        0 <= k <= true_count(g),
    ensures
        first_n(g, k).len() == g.len(),
        subset(first_n(g, k), g),
        true_count(first_n(g, k)) == k,
        overlap_count(first_n(g, k), g) == k,
{
    lemma_ones_of(g);
    let o = ones_of(g);
    let s = o.take(k);
    assert(s.no_duplicates()) by {
        assert forall|a: int, b: int| 0 <= a < s.len() && 0 <= b < s.len() && a != b implies s[a] != s[b] by {
            if a < b {
                assert(o[a] < o[b]);
            } else {
                assert(o[b] < o[a]);
            }
        }
    }
    assert forall|m: int| 0 <= m < s.len() implies #[trigger] s[m] < g.len() by {
        assert(s[m] == o[m]);
    }
    lemma_indicator_count(s, g.len() as nat);
    assert(first_n(g, k) =~= indicator(s, g.len() as nat));
    assert forall|t: int| 0 <= t < first_n(g, k).len() && #[trigger] first_n(g, k)[t] implies t < g.len() && g[t] by {
        lemma_first_n_in(g, k, t);
    }
    let f = first_n(g, k);
    assert(Seq::new(f.len(), |i: int| f[i] && g[i]) =~= f);
}

/// The canonical form of a placement meets every group as often as the placement does.
pub proof fn lemma_first_n_matches(a: Seq<bool>, p: Seq<bool>, g: Seq<bool>)
    requires
        a.len() == g.len(),
        p.len() == g.len(),
        g.len() <= usize::MAX,
        forall|t: int| 0 <= t < g.len() && #[trigger] g[t] ==> a[t] == first_n(g, overlap_count(p, g) as int)[t],
    ensures
        overlap_count(a, g) == overlap_count(p, g),
{
    let c = overlap_count(p, g) as int;
    lemma_overlap_le(p, g);
    lemma_first_n(g, c);
    lemma_overlap_agree(a, first_n(g, c), g);
}

/// A placement meets the union of disjoint groups as often as the sum of its counts on them.
pub proof fn lemma_union_count(x: Seq<bool>, gs: Seq<Seq<bool>>, order: Seq<usize>, n: nat, k: int)
    requires
        0 <= k <= order.len(),
        groups_ok(gs, order, n),
        x.len() == n,
    ensures
        overlap_count(x, groups_union(gs, order.take(k), n)) == psum(counts_of(x, gs, order), k),
    decreases k,
{
    let u = groups_union(gs, order.take(k), n);
    if k == 0 {
        crate::bits::lemma_true_count_zero(Seq::new(x.len(), |i: int| x[i] && u[i]));
    } else {
        lemma_union_count(x, gs, order, n, k - 1);
        let u0 = groups_union(gs, order.take(k - 1), n);
        let g = gs[order[k - 1] as int];
        assert(u =~= or_seq(u0, g)) by {
            assert forall|t: int| 0 <= t < n implies u[t] == (u0[t] || g[t]) by {
                if u[t] {
                    let j = choose|j: int| 0 <= j < k && #[trigger] gs[order.take(k)[j] as int][t];
                    if j < k - 1 {
                        assert(gs[order.take(k - 1)[j] as int][t]);
                    }
                }
                if u0[t] {
                    let j = choose|j: int| 0 <= j < k - 1 && #[trigger] gs[order.take(k - 1)[j] as int][t];
                    assert(gs[order.take(k)[j] as int][t]);
                }
                if g[t] {
                    assert(gs[order.take(k)[k - 1] as int][t]);
                }
            }
        }
        assert forall|t: int| 0 <= t < n implies !(#[trigger] u0[t] && g[t]) by {
            if u0[t] {
                let j = choose|j: int| 0 <= j < k - 1 && #[trigger] gs[order.take(k - 1)[j] as int][t];
                assert(order[j] < order[k - 1]);
                assert(!(gs[order[j] as int][t] && gs[order[k - 1] as int][t]));
            }
        }
        lemma_overlap_or(x, u0, g);
        crate::bits::lemma_true_count_le(Seq::new(x.len(), |i: int| x[i] && g[i]));
        assert(counts_of(x, gs, order)[k - 1] == overlap_count(x, g));
    }
}

/// Inside a group listed in `order`, a combination holds the first tiles of that group.
pub proof fn lemma_canon_on_group(gs: Seq<Seq<bool>>, order: Seq<usize>, kv: Seq<usize>, n: nat, j: int, t: int)
    requires
        groups_ok(gs, order, n),
        kv.len() == order.len(),
        0 <= j < order.len(),
        0 <= t < n,
        gs[order[j] as int][t],
    ensures
        canon(gs, order, kv, n)[t] == first_n(gs[order[j] as int], kv[j] as int)[t],
{
    if canon(gs, order, kv, n)[t] {
        let j2 = choose|j2: int| 0 <= j2 < order.len() && #[trigger] first_n(gs[order[j2] as int], kv[j2] as int)[t];
        lemma_first_n_in(gs[order[j2] as int], kv[j2] as int, t);
        if j2 != j {
            if j2 < j {
                assert(order[j2] < order[j]);
            } else {
                assert(order[j] < order[j2]);
            }
            assert(!(gs[order[j2] as int][t] && gs[order[j] as int][t]));
        }
    }
}

/// The groups of a group set, listed in increasing order, are fit for combinations.
pub proof fn lemma_order_ok(gs: Seq<Seq<bool>>, group_set: Seq<bool>)
    requires
        len_fits(group_set.len()),
        disjoint_groups(gs),
        forall|g: int| 0 <= g < gs.len() ==> (#[trigger] gs[g]).len() == group_set.len(),
        forall|g: int| 0 <= g < group_set.len() && #[trigger] group_set[g] ==> g < gs.len(),
    ensures
        groups_ok(gs, ones_of(group_set), group_set.len()),
{
    lemma_ones_of(group_set);
    let order = ones_of(group_set);
    assert forall|j: int| 0 <= j < order.len() implies #[trigger] order[j] < gs.len() by {
        assert(group_set[order[j] as int]);
    }
}

/// The canonical form of a placement is a combination of its mines on the groups of
/// `group_set`, and it matches the placement there.
pub proof fn lemma_canonical(p: Seq<bool>, gs: Seq<Seq<bool>>, group_set: Seq<bool>)
    requires
        p.len() == group_set.len(),
        len_fits(group_set.len()),
        disjoint_groups(gs),
        forall|g: int| 0 <= g < gs.len() ==> (#[trigger] gs[g]).len() == group_set.len(),
        forall|g: int| 0 <= g < group_set.len() && #[trigger] group_set[g] ==> g < gs.len(),
    ensures
        canonical(p, gs, group_set).len() == group_set.len(),
        is_combination(canonical(p, gs, group_set), gs, group_set, overlap_count(p, region(gs, group_set))),
        matches_on(canonical(p, gs, group_set), p, gs, group_set),
{
    let n = group_set.len();
    let order = ones_of(group_set);
    lemma_ones_of(group_set);
    lemma_order_ok(gs, group_set);
    let kv = counts_of(p, gs, order);
    let caps = caps_of(gs, order);
    assert forall|j: int| 0 <= j < kv.len() implies #[trigger] kv[j] <= caps[j] by {
        let g = gs[order[j] as int];
        lemma_overlap_le(p, g);
        crate::bits::lemma_true_count_le(g);
    }
    lemma_union_count(p, gs, order, n, order.len() as int);
    assert(order.take(order.len() as int) =~= order);
    assert(valid(kv, caps, overlap_count(p, region(gs, group_set))));
    assert(is_combination(canonical(p, gs, group_set), gs, group_set, overlap_count(p, region(gs, group_set))));
    let c = canonical(p, gs, group_set);
    assert forall|g: int, t: int|
        #![trigger group_set[g], gs[g][t]]
        0 <= g < group_set.len() && group_set[g] && g < gs.len() && 0 <= t < gs[g].len() && gs[g][t] implies c[t]
            == first_n(gs[g], overlap_count(p, gs[g]) as int)[t] by {
        assert(order.contains(g as usize));
        let j = choose|j: int| 0 <= j < order.len() && order[j] == g as usize;
        lemma_canon_on_group(gs, order, kv, n, j, t);
        crate::bits::lemma_true_count_le(Seq::new(p.len(), |i: int| p[i] && gs[g][i]));
    }
}

/// A set that matches a placement on a group set meets every region of its groups as often as
/// the placement does.
pub proof fn lemma_match_region_count(
    a: Seq<bool>,
    p: Seq<bool>,
    gs: Seq<Seq<bool>>,
    group_set: Seq<bool>,
    sub_set: Seq<bool>,
)
    requires
        matches_on(a, p, gs, group_set),
        a.len() == group_set.len(),
        p.len() == group_set.len(),
        sub_set.len() == group_set.len(),
        len_fits(group_set.len()),
        disjoint_groups(gs),
        forall|g: int| 0 <= g < gs.len() ==> (#[trigger] gs[g]).len() == group_set.len(),
        forall|g: int| 0 <= g < group_set.len() && #[trigger] group_set[g] ==> g < gs.len(),
        forall|g: int| 0 <= g < sub_set.len() && #[trigger] sub_set[g] ==> group_set[g],
    ensures
        overlap_count(a, region(gs, sub_set)) == overlap_count(p, region(gs, sub_set)),
{
    let n = group_set.len();
    let order = ones_of(sub_set);
    lemma_ones_of(sub_set);
    lemma_order_ok(gs, sub_set);
    assert(counts_of(a, gs, order) =~= counts_of(p, gs, order)) by {
        assert forall|j: int| 0 <= j < order.len() implies counts_of(a, gs, order)[j] == counts_of(p, gs, order)[j] by {
            let g = order[j] as int;
            assert(sub_set[g]);
            assert(group_set[g]);
            assert forall|t: int| 0 <= t < gs[g].len() && #[trigger] gs[g][t] implies a[t] == first_n(
                gs[g],
                overlap_count(p, gs[g]) as int,
            )[t] by {}
            lemma_first_n_matches(a, p, gs[g]);
        }
    }
    lemma_union_count(a, gs, order, n, order.len() as int);
    lemma_union_count(p, gs, order, n, order.len() as int);
    assert(order.take(order.len() as int) =~= order);
}

/// A tile lies in the region of a group set exactly when one of the set's groups holds it.
pub proof fn lemma_region_iff(gs: Seq<Seq<bool>>, group_set: Seq<bool>, t: int)
    requires
        group_set.len() <= usize::MAX,
        forall|g: int| 0 <= g < group_set.len() && #[trigger] group_set[g] ==> g < gs.len(),
        0 <= t < group_set.len(),
    ensures
        region(gs, group_set)[t] <==> exists|g: int| 0 <= g < group_set.len() && group_set[g] && #[trigger] gs[g][t],
{
    lemma_ones_of(group_set);
    let order = ones_of(group_set);
    if region(gs, group_set)[t] {
        let j = choose|j: int| 0 <= j < order.len() && #[trigger] gs[order[j] as int][t];
        let g = order[j] as int;
        assert(group_set[g] && gs[g][t]);
    }
    if exists|g: int| 0 <= g < group_set.len() && group_set[g] && #[trigger] gs[g][t] {
        let g = choose|g: int| 0 <= g < group_set.len() && group_set[g] && #[trigger] gs[g][t];
        assert(order.contains(g as usize));
        let j = choose|j: int| 0 <= j < order.len() && order[j] == g as usize;
        assert(gs[order[j] as int][t]);
    }
}


// ---------------------------------------------------------------------------------------------
// Arrangement sets and placements

/// Groups of tiles with `n` positions each that do not overlap.
pub open spec fn groups_fit(gs: Seq<Seq<bool>>, n: nat) -> bool {
    &&& len_fits(n)
    &&& disjoint_groups(gs)
    &&& forall|g: int| 0 <= g < gs.len() ==> (#[trigger] gs[g]).len() == n
}

/// Every index of `group_set` names a group of `gs`.
pub open spec fn names_groups(group_set: Seq<bool>, gs: Seq<Seq<bool>>) -> bool {
    forall|g: int| 0 <= g < group_set.len() && #[trigger] group_set[g] ==> g < gs.len()
}

/// The set's tiles are the tiles of its groups.
pub open spec fn on_groups(s: ArrangementSet, gs: Seq<Seq<bool>>) -> bool {
    s.spec_mask() == region(gs, s.spec_groups())
}

/// Some arrangement of the set holds the canonical form of `p` on the set's groups.
pub open spec fn has_match(s: ArrangementSet, p: Seq<bool>, gs: Seq<Seq<bool>>) -> bool {
    exists|a: Seq<bool>| #[trigger] s.spec_arrangements().contains(a) && matches_on(a, p, gs, s.spec_groups())
}

/// The region of the union of two group sets is the union of their regions.
pub proof fn lemma_region_or(gs: Seq<Seq<bool>>, a: Seq<bool>, b: Seq<bool>)
    requires
        a.len() == b.len(),
        a.len() <= usize::MAX,
        names_groups(a, gs),
        names_groups(b, gs),
    ensures
        region(gs, or_seq(a, b)) == or_seq(region(gs, a), region(gs, b)),
{
    let n = a.len();
    let u = or_seq(a, b);
    assert(names_groups(u, gs)) by {
        assert forall|g: int| 0 <= g < u.len() && #[trigger] u[g] implies g < gs.len() by {
            if a[g] {
                assert(a[g]);
            } else {
                assert(b[g]);
            }
        }
    }
    assert forall|t: int| 0 <= t < n implies region(gs, u)[t] == or_seq(region(gs, a), region(gs, b))[t] by {
        lemma_region_iff(gs, u, t);
        lemma_region_iff(gs, a, t);
        lemma_region_iff(gs, b, t);
        if region(gs, u)[t] {
            let g = choose|g: int| 0 <= g < u.len() && u[g] && #[trigger] gs[g][t];
            if a[g] {
                assert(region(gs, a)[t]);
            } else {
                assert(region(gs, b)[t]);
            }
        }
        if region(gs, a)[t] {
            let g = choose|g: int| 0 <= g < a.len() && a[g] && #[trigger] gs[g][t];
            assert(u[g]);
        }
        if region(gs, b)[t] {
            let g = choose|g: int| 0 <= g < b.len() && b[g] && #[trigger] gs[g][t];
            assert(u[g]);
        }
    }
    assert(region(gs, u) =~= or_seq(region(gs, a), region(gs, b)));
}

/// The region of the groups of `a` not in `b` is the region of `a` without that of `b`.
pub proof fn lemma_region_minus(gs: Seq<Seq<bool>>, a: Seq<bool>, b: Seq<bool>)
    requires
        a.len() == b.len(),
        groups_fit(gs, a.len()),
        names_groups(a, gs),
        names_groups(b, gs),
    ensures
        region(gs, minus_seq(a, b)) == minus_seq(region(gs, a), region(gs, b)),
{
    let n = a.len();
    let d = minus_seq(a, b);
    assert(names_groups(d, gs)) by {
        assert forall|g: int| 0 <= g < d.len() && #[trigger] d[g] implies g < gs.len() by {
            assert(a[g]);
        }
    }
    assert forall|t: int| 0 <= t < n implies region(gs, d)[t] == minus_seq(region(gs, a), region(gs, b))[t] by {
        lemma_region_iff(gs, d, t);
        lemma_region_iff(gs, a, t);
        lemma_region_iff(gs, b, t);
        if region(gs, d)[t] {
            let g = choose|g: int| 0 <= g < d.len() && d[g] && #[trigger] gs[g][t];
            assert(region(gs, a)[t]);
            if region(gs, b)[t] {
                let g2 = choose|g2: int| 0 <= g2 < b.len() && b[g2] && #[trigger] gs[g2][t];
                assert(!(gs[g][t] && gs[g2][t]));
            }
        }
        if region(gs, a)[t] && !region(gs, b)[t] {
            let g = choose|g: int| 0 <= g < a.len() && a[g] && #[trigger] gs[g][t];
            assert(!b[g]);
            assert(d[g]);
        }
    }
    assert(region(gs, d) =~= minus_seq(region(gs, a), region(gs, b)));
}

/// A tile of a group outside `own` lies outside the region of `own`.
pub proof fn lemma_outside_region(gs: Seq<Seq<bool>>, own: Seq<bool>, g: int, t: int)
    requires
        groups_fit(gs, own.len()),
        names_groups(own, gs),
        0 <= g < gs.len(),
        0 <= t < own.len(),
        gs[g][t],
        !(g < own.len() && own[g]),
    ensures
        !region(gs, own)[t],
{
    lemma_region_iff(gs, own, t);
    if region(gs, own)[t] {
        let g2 = choose|g2: int| 0 <= g2 < own.len() && own[g2] && #[trigger] gs[g2][t];
        assert(!(gs[g][t] && gs[g2][t]));
    }
}

/// Taking the tiles of other groups out of an arrangement keeps its match on the groups left.
pub proof fn lemma_cut_match(a: Seq<bool>, p: Seq<bool>, gs: Seq<Seq<bool>>, own: Seq<bool>, other: Seq<bool>)
    requires
        matches_on(a, p, gs, own),
        a.len() == own.len(),
        other.len() == own.len(),
        groups_fit(gs, own.len()),
        names_groups(other, gs),
    ensures
        matches_on(minus_seq(a, region(gs, other)), p, gs, minus_seq(own, other)),
{
    let d = minus_seq(own, other);
    let x = minus_seq(a, region(gs, other));
    assert forall|g: int, t: int|
        #![trigger d[g], gs[g][t]]
        0 <= g < d.len() && d[g] && g < gs.len() && 0 <= t < gs[g].len() && gs[g][t] implies x[t] == first_n(
        gs[g],
        overlap_count(p, gs[g]) as int,
    )[t] by {
        assert(own[g]);
        lemma_outside_region(gs, other, g, t);
    }
}

/// Two arrangements that match the same placement agree where their regions meet, and their
/// union matches it on both group sets.
pub proof fn lemma_join_match(
    a: Seq<bool>,
    b: Seq<bool>,
    p: Seq<bool>,
    gs: Seq<Seq<bool>>,
    ga: Seq<bool>,
    gb: Seq<bool>,
)
    requires
        matches_on(a, p, gs, ga),
        matches_on(b, p, gs, gb),
        ga.len() == a.len(),
        gb.len() == a.len(),
        b.len() == a.len(),
        groups_fit(gs, a.len()),
        names_groups(ga, gs),
        names_groups(gb, gs),
        subset(a, region(gs, ga)),
        subset(b, region(gs, gb)),
    ensures
        forall|t: int| 0 <= t < a.len() && region(gs, ga)[t] && region(gs, gb)[t] ==> #[trigger] a[t] == b[t],
        matches_on(or_seq(a, b), p, gs, or_seq(ga, gb)),
{
    let n = a.len();
    assert forall|t: int| 0 <= t < n && region(gs, ga)[t] && region(gs, gb)[t] implies #[trigger] a[t] == b[t] by {
        lemma_region_iff(gs, ga, t);
        lemma_region_iff(gs, gb, t);
        let g1 = choose|g1: int| 0 <= g1 < ga.len() && ga[g1] && #[trigger] gs[g1][t];
        let g2 = choose|g2: int| 0 <= g2 < gb.len() && gb[g2] && #[trigger] gs[g2][t];
        if g1 != g2 {
            assert(!(gs[g1][t] && gs[g2][t]));
        }
    }
    let u = or_seq(ga, gb);
    let x = or_seq(a, b);
    assert forall|g: int, t: int|
        #![trigger u[g], gs[g][t]]
        0 <= g < u.len() && u[g] && g < gs.len() && 0 <= t < gs[g].len() && gs[g][t] implies x[t] == first_n(
        gs[g],
        overlap_count(p, gs[g]) as int,
    )[t] by {
        if ga[g] {
            if b[t] && !gb[g] {
                lemma_outside_region(gs, gb, g, t);
            }
        } else {
            assert(gb[g]);
            if a[t] {
                lemma_outside_region(gs, ga, g, t);
            }
        }
    }
}

/// A placement that meets a hint's mines on its tiles leaves, after an arrangement matching it
/// on the set's groups, its own mines on the hint's fresh groups: the arrangement fits the hint,
/// the placement's canonical form on the fresh groups completes it, and the completion matches
/// the placement on all the groups.
pub proof fn lemma_extension_match(
    olds: Seq<Seq<bool>>,
    gs: Seq<Seq<bool>>,
    own: Seq<bool>,
    group_set: Seq<bool>,
    num: nat,
    p: Seq<bool>,
    a: Seq<bool>,
)
    requires
        groups_fit(gs, group_set.len()),
        own.len() == group_set.len(),
        p.len() == group_set.len(),
        a.len() == group_set.len(),
        names_groups(own, gs),
        names_groups(group_set, gs),
        olds.contains(a),
        matches_on(a, p, gs, own),
        subset(a, region(gs, own)),
        overlap_count(p, region(gs, group_set)) == num,
    ensures
        fits_hint(a, gs, own, group_set, num),
        is_combination(
            canonical(p, gs, fresh_groups(own, group_set)),
            gs,
            fresh_groups(own, group_set),
            fresh_mines(a, gs, own, group_set, num),
        ),
        matches_on(canonical(p, gs, fresh_groups(own, group_set)), p, gs, fresh_groups(own, group_set)),
        canonical(p, gs, fresh_groups(own, group_set)).len() == group_set.len(),
        hint_extension(or_seq(a, canonical(p, gs, fresh_groups(own, group_set))), olds, gs, own, group_set, num),
        matches_on(or_seq(a, canonical(p, gs, fresh_groups(own, group_set))), p, gs, or_seq(own, group_set)),
        region(gs, or_seq(own, group_set)) == or_seq(region(gs, own), region(gs, fresh_groups(own, group_set))),
{
    let n = group_set.len();
    let shared = shared_groups(own, group_set);
    let fresh = fresh_groups(own, group_set);
    assert(names_groups(shared, gs)) by {
        assert forall|g: int| 0 <= g < shared.len() && #[trigger] shared[g] implies g < gs.len() by {
            assert(own[g]);
        }
    }
    assert(names_groups(fresh, gs)) by {
        assert forall|g: int| 0 <= g < fresh.len() && #[trigger] fresh[g] implies g < gs.len() by {
            assert(group_set[g]);
        }
    }
    // the hint's region splits into its shared and its fresh part
    assert(region(gs, group_set) =~= or_seq(region(gs, shared), region(gs, fresh))) by {
        assert forall|t: int| 0 <= t < n implies region(gs, group_set)[t] == or_seq(region(gs, shared), region(gs, fresh))[t] by {
            lemma_region_iff(gs, group_set, t);
            lemma_region_iff(gs, shared, t);
            lemma_region_iff(gs, fresh, t);
            if region(gs, group_set)[t] {
                let g = choose|g: int| 0 <= g < group_set.len() && group_set[g] && #[trigger] gs[g][t];
                if own[g] {
                    assert(shared[g]);
                } else {
                    assert(fresh[g]);
                }
            }
            if region(gs, shared)[t] {
                let g = choose|g: int| 0 <= g < shared.len() && shared[g] && #[trigger] gs[g][t];
                assert(group_set[g]);
            }
            if region(gs, fresh)[t] {
                let g = choose|g: int| 0 <= g < fresh.len() && fresh[g] && #[trigger] gs[g][t];
                assert(group_set[g]);
            }
        }
    }
    assert forall|t: int| 0 <= t < n implies !(#[trigger] region(gs, shared)[t] && region(gs, fresh)[t]) by {
        lemma_region_iff(gs, shared, t);
        lemma_region_iff(gs, fresh, t);
        if region(gs, shared)[t] && region(gs, fresh)[t] {
            let g1 = choose|g1: int| 0 <= g1 < shared.len() && shared[g1] && #[trigger] gs[g1][t];
            let g2 = choose|g2: int| 0 <= g2 < fresh.len() && fresh[g2] && #[trigger] gs[g2][t];
            assert(g1 != g2);
            assert(!(gs[g1][t] && gs[g2][t]));
        }
    }
    lemma_overlap_or(p, region(gs, shared), region(gs, fresh));
    lemma_match_region_count(a, p, gs, own, shared);
    lemma_overlap_le(p, region(gs, fresh));
    assert(fits_hint(a, gs, own, group_set, num));
    lemma_canonical(p, gs, fresh);
    let c = canonical(p, gs, fresh);
    assert(fresh_mines(a, gs, own, group_set, num) == overlap_count(p, region(gs, fresh)));
    let x = or_seq(a, c);
    assert(hint_extension(x, olds, gs, own, group_set, num));
    crate::arrangements::lemma_combination_in_region(c, gs, fresh, overlap_count(p, region(gs, fresh)));
    let u = or_seq(own, group_set);
    assert forall|g: int, t: int|
        #![trigger u[g], gs[g][t]]
        0 <= g < u.len() && u[g] && g < gs.len() && 0 <= t < gs[g].len() && gs[g][t] implies x[t] == first_n(
        gs[g],
        overlap_count(p, gs[g]) as int,
    )[t] by {
        if own[g] {
            if c[t] {
                lemma_outside_region(gs, fresh, g, t);
            }
        } else {
            assert(fresh[g]);
            if a[t] {
                lemma_outside_region(gs, own, g, t);
            }
        }
    }
    assert(region(gs, u) =~= or_seq(region(gs, own), region(gs, fresh))) by {
        lemma_region_or(gs, own, group_set);
        assert forall|t: int| 0 <= t < n implies or_seq(region(gs, own), region(gs, group_set))[t] == or_seq(
            region(gs, own),
            region(gs, fresh),
        )[t] by {
            if region(gs, shared)[t] {
                lemma_region_iff(gs, shared, t);
                lemma_region_iff(gs, own, t);
                let g = choose|g: int| 0 <= g < shared.len() && shared[g] && #[trigger] gs[g][t];
                assert(own[g]);
            }
        }
    }
}


/// The region of a set's groups together with a hint's groups is the set's region together with
/// the region of the hint's fresh groups.
pub proof fn lemma_region_extend(gs: Seq<Seq<bool>>, own: Seq<bool>, group_set: Seq<bool>)
    requires
        own.len() == group_set.len(),
        groups_fit(gs, group_set.len()),
        names_groups(own, gs),
        names_groups(group_set, gs),
    ensures
        region(gs, or_seq(own, group_set)) == or_seq(region(gs, own), region(gs, fresh_groups(own, group_set))),
{
    let n = group_set.len();
    let fresh = fresh_groups(own, group_set);
    assert(names_groups(fresh, gs)) by {
        assert forall|g: int| 0 <= g < fresh.len() && #[trigger] fresh[g] implies g < gs.len() by {
            assert(group_set[g]);
        }
    }
    lemma_region_or(gs, own, group_set);
    assert forall|t: int| 0 <= t < n implies or_seq(region(gs, own), region(gs, group_set))[t] == or_seq(
        region(gs, own),
        region(gs, fresh),
    )[t] by {
        lemma_region_iff(gs, own, t);
        lemma_region_iff(gs, group_set, t);
        lemma_region_iff(gs, fresh, t);
        if region(gs, group_set)[t] {
            let g = choose|g: int| 0 <= g < group_set.len() && group_set[g] && #[trigger] gs[g][t];
            if !own[g] {
                assert(fresh[g]);
            }
        }
        if region(gs, fresh)[t] {
            let g = choose|g: int| 0 <= g < fresh.len() && fresh[g] && #[trigger] gs[g][t];
            assert(group_set[g]);
        }
    }
    assert(or_seq(region(gs, own), region(gs, group_set)) =~= or_seq(region(gs, own), region(gs, fresh)));
}

/// Adding a hint that a placement meets keeps an arrangement matching the placement, when the
/// completions are joined to the set.
pub proof fn lemma_add_joined(cur0: ArrangementSet, cur1: ArrangementSet, gs: Seq<Seq<bool>>, group_set: Seq<bool>, num: nat, p: Seq<bool>)
    requires
        cur0.wf_in(group_set.len(), gs.len()),
        on_groups(cur0, gs),
        groups_fit(gs, group_set.len()),
        names_groups(group_set, gs),
        p.len() == group_set.len(),
        has_match(cur0, p, gs),
        overlap_count(p, region(gs, group_set)) == num,
        cur1.spec_groups() == or_seq(cur0.spec_groups(), group_set),
        forall|x: Seq<bool>| #[trigger] cur1.spec_arrangements().contains(x) <==> hint_extension(
            x,
            cur0.spec_arrangements(),
            gs,
            cur0.spec_groups(),
            group_set,
            num,
        ),
    ensures
        has_match(cur1, p, gs),
{
    let n = group_set.len();
    cur0.lemma_wf_in(n, gs.len());
    let own = cur0.spec_groups();
    let olds = cur0.spec_arrangements();
    let a = choose|a: Seq<bool>| #[trigger] olds.contains(a) && matches_on(a, p, gs, own);
    let k = choose|k: int| 0 <= k < olds.len() && olds[k] == a;
    assert(a.len() == n && subset(a, cur0.spec_mask()));
    lemma_extension_match(olds, gs, own, group_set, num, p, a);
    let x = or_seq(a, canonical(p, gs, fresh_groups(own, group_set)));
    assert(cur1.spec_arrangements().contains(x));
}

/// Adding a hint that a placement meets keeps an arrangement matching the placement, both in
/// the set and in the split-off set of completions.
pub proof fn lemma_add_split(
    cur0: ArrangementSet,
    cur1: ArrangementSet,
    other: ArrangementSet,
    gs: Seq<Seq<bool>>,
    group_set: Seq<bool>,
    num: nat,
    p: Seq<bool>,
)
    requires
        cur0.wf_in(group_set.len(), gs.len()),
        on_groups(cur0, gs),
        groups_fit(gs, group_set.len()),
        names_groups(group_set, gs),
        p.len() == group_set.len(),
        has_match(cur0, p, gs),
        overlap_count(p, region(gs, group_set)) == num,
        cur1.spec_groups() == cur0.spec_groups(),
        forall|x: Seq<bool>| #[trigger] cur1.spec_arrangements().contains(x) <==> cur0.spec_arrangements().contains(x)
            && fits_hint(x, gs, cur0.spec_groups(), group_set, num),
        other.spec_groups() == fresh_groups(cur0.spec_groups(), group_set),
        forall|x: Seq<bool>| #[trigger] other.spec_arrangements().contains(x) <==> exists|a: Seq<bool>|
            #[trigger] cur1.spec_arrangements().contains(a) && is_combination(
                x,
                gs,
                fresh_groups(cur0.spec_groups(), group_set),
                fresh_mines(a, gs, cur0.spec_groups(), group_set, num),
            ),
    ensures
        has_match(cur1, p, gs),
        has_match(other, p, gs),
{
    let n = group_set.len();
    cur0.lemma_wf_in(n, gs.len());
    let own = cur0.spec_groups();
    let olds = cur0.spec_arrangements();
    let a = choose|a: Seq<bool>| #[trigger] olds.contains(a) && matches_on(a, p, gs, own);
    let k = choose|k: int| 0 <= k < olds.len() && olds[k] == a;
    assert(a.len() == n && subset(a, cur0.spec_mask()));
    lemma_extension_match(olds, gs, own, group_set, num, p, a);
    assert(cur1.spec_arrangements().contains(a));
    let c = canonical(p, gs, fresh_groups(own, group_set));
    assert(other.spec_arrangements().contains(c));
}


/// A set holding every combination of a hint's mines has an arrangement matching each
/// placement that meets the hint.
pub proof fn lemma_all_combinations_match(sub: ArrangementSet, gs: Seq<Seq<bool>>, group_set: Seq<bool>, num: nat, p: Seq<bool>)
    requires
        groups_fit(gs, group_set.len()),
        names_groups(group_set, gs),
        p.len() == group_set.len(),
        overlap_count(p, region(gs, group_set)) == num,
        sub.spec_groups() == group_set,
        forall|s: Seq<bool>| #[trigger] is_combination(s, gs, group_set, num) ==> sub.spec_arrangements().contains(s),
    ensures
        has_match(sub, p, gs),
{
    lemma_canonical(p, gs, group_set);
    assert(sub.spec_arrangements().contains(canonical(p, gs, group_set)));
}


/// When every arrangement of `s` agrees with its first on `ov`, cutting `o0` down to the
/// arrangements that agree with it there, less the tiles of `s`, keeps an arrangement matching
/// each placement that both sets match.
pub proof fn lemma_cut_keeps_match(
    s: ArrangementSet,
    o0: ArrangementSet,
    o1: ArrangementSet,
    ov: Seq<bool>,
    gs: Seq<Seq<bool>>,
    p: Seq<bool>,
)
    requires
        s.wf_in(s.spec_mask().len(), gs.len()),
        o0.wf_in(s.spec_mask().len(), gs.len()),
        groups_fit(gs, s.spec_mask().len()),
        on_groups(s, gs),
        on_groups(o0, gs),
        ov.len() == s.spec_mask().len(),
        forall|t: int| 0 <= t < ov.len() && #[trigger] ov[t] ==> s.spec_mask()[t] && o0.spec_mask()[t],
        p.len() == s.spec_mask().len(),
        has_match(s, p, gs),
        has_match(o0, p, gs),
        s.spec_arrangements().len() > 0,
        forall|k: int| 1 <= k < s.spec_arrangements().len() ==> agree_on(
            #[trigger] s.spec_arrangements()[k],
            s.spec_arrangements()[0],
            ov,
        ),
        o1.spec_groups() == minus_seq(o0.spec_groups(), s.spec_groups()),
        forall|x: Seq<bool>| #[trigger] o1.spec_arrangements().contains(x) <==> exists|a: Seq<bool>|
            #[trigger] o0.spec_arrangements().contains(a) && agree_on(a, s.spec_arrangements()[0], ov) && x == minus_seq(
                a,
                s.spec_mask(),
            ),
    ensures
        has_match(o1, p, gs),
{
    let n = s.spec_mask().len();
    s.lemma_wf_in(n, gs.len());
    o0.lemma_wf_in(n, gs.len());
    let arrs = s.spec_arrangements();
    let a_s = choose|a: Seq<bool>| #[trigger] arrs.contains(a) && matches_on(a, p, gs, s.spec_groups());
    let ks = choose|ks: int| 0 <= ks < arrs.len() && arrs[ks] == a_s;
    let a_o = choose|a: Seq<bool>| #[trigger] o0.spec_arrangements().contains(a) && matches_on(a, p, gs, o0.spec_groups());
    let ko = choose|ko: int| 0 <= ko < o0.spec_arrangements().len() && o0.spec_arrangements()[ko] == a_o;
    lemma_join_match(a_s, a_o, p, gs, s.spec_groups(), o0.spec_groups());
    assert(agree_on(a_o, arrs[0], ov)) by {
        assert forall|t: int| 0 <= t < ov.len() && #[trigger] ov[t] implies a_o[t] == arrs[0][t] by {
            assert(a_s[t] == a_o[t]);
            if ks > 0 {
                assert(agree_on(arrs[ks], arrs[0], ov));
            }
        }
    }
    lemma_cut_match(a_o, p, gs, o0.spec_groups(), s.spec_groups());
    assert(o1.spec_arrangements().contains(minus_seq(a_o, s.spec_mask())));
}


/// Every set's tiles are the tiles of its groups.
pub open spec fn all_on_groups(subs: Seq<ArrangementSet>, gs: Seq<Seq<bool>>) -> bool {
    forall|k: int| 0 <= k < subs.len() ==> on_groups(#[trigger] subs[k], gs)
}

/// Every set has an arrangement matching `p`.
pub open spec fn all_match(subs: Seq<ArrangementSet>, p: Seq<bool>, gs: Seq<Seq<bool>>) -> bool {
    forall|k: int| 0 <= k < subs.len() ==> has_match(#[trigger] subs[k], p, gs)
}


/// A placement meets the union of non-overlapping sets as often as the sum of its counts on them.
pub proof fn lemma_union_sum(p: Seq<bool>, masks: Seq<Seq<bool>>, cv: Seq<usize>, n: nat, k: int)
    requires
        0 <= k <= masks.len(),
        cv.len() == masks.len(),
        p.len() == n,
        forall|j: int| 0 <= j < masks.len() ==> (#[trigger] masks[j]).len() == n && cv[j] == overlap_count(p, masks[j]),
        forall|a: int, b: int, t: int|
            0 <= a < masks.len() && 0 <= b < masks.len() && a != b && 0 <= t < n ==> !(#[trigger] masks[a][t]
                && #[trigger] masks[b][t]),
    ensures
        psum(cv, k) == overlap_count(p, union_seq(masks.take(k), n)),
    decreases k,
{
    let u = union_seq(masks.take(k), n);
    if k == 0 {
        crate::bits::lemma_true_count_zero(Seq::new(p.len(), |i: int| p[i] && u[i]));
    } else {
        lemma_union_sum(p, masks, cv, n, k - 1);
        let u0 = union_seq(masks.take(k - 1), n);
        let m = masks[k - 1];
        assert(u =~= or_seq(u0, m)) by {
            assert forall|t: int| 0 <= t < n implies u[t] == (u0[t] || m[t]) by {
                if u[t] {
                    let j = choose|j: int| 0 <= j < masks.take(k).len() && #[trigger] masks.take(k)[j][t];
                    if j < k - 1 {
                        assert(masks.take(k - 1)[j][t]);
                    }
                }
                if u0[t] {
                    let j = choose|j: int| 0 <= j < masks.take(k - 1).len() && #[trigger] masks.take(k - 1)[j][t];
                    assert(masks.take(k)[j][t]);
                }
                if m[t] {
                    assert(masks.take(k)[k - 1][t]);
                }
            }
        }
        assert forall|t: int| 0 <= t < n implies !(#[trigger] u0[t] && m[t]) by {
            if u0[t] {
                let j = choose|j: int| 0 <= j < masks.take(k - 1).len() && #[trigger] masks.take(k - 1)[j][t];
                assert(!(masks[j][t] && masks[k - 1][t]));
            }
        }
        lemma_overlap_or(p, u0, m);
    }
}



// ---------------------------------------------------------------------------------------------
// Matches back to the hints

/// A combination of `num` mines on the groups of `group_set` holds `num` tiles of their region.
pub proof fn lemma_combination_count(c: Seq<bool>, gs: Seq<Seq<bool>>, group_set: Seq<bool>, num: nat)
    requires
        is_combination(c, gs, group_set, num),
        groups_fit(gs, group_set.len()),
        names_groups(group_set, gs),
    ensures
        overlap_count(c, region(gs, group_set)) == num,
{
    let n = group_set.len();
    let order = ones_of(group_set);
    lemma_ones_of(group_set);
    lemma_order_ok(gs, group_set);
    crate::arrangements::lemma_combination_in_region(c, gs, group_set, num);
    let caps = caps_of(gs, order);
    let kv = choose|kv: Seq<usize>| valid(kv, caps, num) && c == #[trigger] canon(gs, order, kv, n);
    assert(counts_of(c, gs, order) =~= kv) by {
        assert forall|j: int| 0 <= j < order.len() implies counts_of(c, gs, order)[j] == kv[j] by {
            let g = gs[order[j] as int];
            crate::bits::lemma_true_count_le(g);
            assert(kv[j] <= caps[j]);
            lemma_first_n(g, kv[j] as int);
            assert forall|t: int| 0 <= t < n && #[trigger] g[t] implies c[t] == first_n(g, kv[j] as int)[t] by {
                lemma_canon_on_group(gs, order, kv, n, j, t);
            }
            lemma_overlap_agree(c, first_n(g, kv[j] as int), g);
        }
    }
    lemma_union_count(c, gs, order, n, order.len() as int);
    assert(order.take(order.len() as int) =~= order);
}

/// A hint's region is the region of its groups the set already covers together with that of its
/// fresh groups, and the two do not meet.
pub proof fn lemma_hint_region_split(gs: Seq<Seq<bool>>, own: Seq<bool>, group_set: Seq<bool>)
    requires
        own.len() == group_set.len(),
        groups_fit(gs, group_set.len()),
        names_groups(own, gs),
        names_groups(group_set, gs),
    ensures
        names_groups(shared_groups(own, group_set), gs),
        names_groups(fresh_groups(own, group_set), gs),
        region(gs, group_set) == or_seq(region(gs, shared_groups(own, group_set)), region(gs, fresh_groups(own, group_set))),
        forall|t: int| 0 <= t < group_set.len() ==> !(#[trigger] region(gs, shared_groups(own, group_set))[t]
            && region(gs, fresh_groups(own, group_set))[t]),
        forall|t: int| 0 <= t < group_set.len() ==> !(#[trigger] region(gs, own)[t]
            && region(gs, fresh_groups(own, group_set))[t]),
{
    let n = group_set.len();
    let shared = shared_groups(own, group_set);
    let fresh = fresh_groups(own, group_set);
    assert(names_groups(shared, gs)) by {
        assert forall|g: int| 0 <= g < shared.len() && #[trigger] shared[g] implies g < gs.len() by {
            assert(own[g]);
        }
    }
    assert(names_groups(fresh, gs)) by {
        assert forall|g: int| 0 <= g < fresh.len() && #[trigger] fresh[g] implies g < gs.len() by {
            assert(group_set[g]);
        }
    }
    assert forall|t: int| 0 <= t < n implies region(gs, group_set)[t] == or_seq(region(gs, shared), region(gs, fresh))[t] by {
        lemma_region_iff(gs, group_set, t);
        lemma_region_iff(gs, shared, t);
        lemma_region_iff(gs, fresh, t);
        if region(gs, group_set)[t] {
            let g = choose|g: int| 0 <= g < group_set.len() && group_set[g] && #[trigger] gs[g][t];
            if own[g] {
                assert(shared[g]);
            } else {
                assert(fresh[g]);
            }
        }
        if region(gs, shared)[t] {
            let g = choose|g: int| 0 <= g < shared.len() && shared[g] && #[trigger] gs[g][t];
            assert(group_set[g]);
        }
        if region(gs, fresh)[t] {
            let g = choose|g: int| 0 <= g < fresh.len() && fresh[g] && #[trigger] gs[g][t];
            assert(group_set[g]);
        }
    }
    assert(region(gs, group_set) =~= or_seq(region(gs, shared), region(gs, fresh)));
    assert forall|t: int| 0 <= t < n implies !(#[trigger] region(gs, own)[t] && region(gs, fresh)[t]) by {
        lemma_region_iff(gs, own, t);
        lemma_region_iff(gs, fresh, t);
        if region(gs, own)[t] && region(gs, fresh)[t] {
            let g1 = choose|g1: int| 0 <= g1 < own.len() && own[g1] && #[trigger] gs[g1][t];
            let g2 = choose|g2: int| 0 <= g2 < fresh.len() && fresh[g2] && #[trigger] gs[g2][t];
            assert(g1 != g2);
            assert(!(gs[g1][t] && gs[g2][t]));
        }
    }
    assert forall|t: int| 0 <= t < n implies !(#[trigger] region(gs, shared)[t] && region(gs, fresh)[t]) by {
        lemma_region_iff(gs, shared, t);
        lemma_region_iff(gs, own, t);
        if region(gs, shared)[t] {
            let g = choose|g: int| 0 <= g < shared.len() && shared[g] && #[trigger] gs[g][t];
            assert(own[g]);
            assert(region(gs, own)[t]);
        }
    }
}

/// An arrangement made of two parts that agree where their regions meet matches a placement on
/// both group sets when it matches it on their union.
pub proof fn lemma_split_match(
    a: Seq<bool>,
    b: Seq<bool>,
    p: Seq<bool>,
    gs: Seq<Seq<bool>>,
    ga: Seq<bool>,
    gb: Seq<bool>,
)
    requires
        matches_on(or_seq(a, b), p, gs, or_seq(ga, gb)),
        ga.len() == a.len(),
        gb.len() == a.len(),
        b.len() == a.len(),
        groups_fit(gs, a.len()),
        names_groups(ga, gs),
        names_groups(gb, gs),
        subset(a, region(gs, ga)),
        subset(b, region(gs, gb)),
        forall|t: int| 0 <= t < a.len() && region(gs, ga)[t] && region(gs, gb)[t] ==> #[trigger] a[t] == b[t],
    ensures
        matches_on(a, p, gs, ga),
        matches_on(b, p, gs, gb),
{
    let u = or_seq(ga, gb);
    let x = or_seq(a, b);
    assert forall|g: int, t: int|
        #![trigger ga[g], gs[g][t]]
        0 <= g < ga.len() && ga[g] && g < gs.len() && 0 <= t < gs[g].len() && gs[g][t] implies a[t] == first_n(
        gs[g],
        overlap_count(p, gs[g]) as int,
    )[t] by {
        assert(u[g]);
        assert(x[t] == first_n(gs[g], overlap_count(p, gs[g]) as int)[t]);
        lemma_region_iff(gs, ga, t);
        if b[t] {
            assert(region(gs, gb)[t]);
            assert(a[t] == b[t]);
        }
    }
    assert forall|g: int, t: int|
        #![trigger gb[g], gs[g][t]]
        0 <= g < gb.len() && gb[g] && g < gs.len() && 0 <= t < gs[g].len() && gs[g][t] implies b[t] == first_n(
        gs[g],
        overlap_count(p, gs[g]) as int,
    )[t] by {
        assert(u[g]);
        assert(x[t] == first_n(gs[g], overlap_count(p, gs[g]) as int)[t]);
        lemma_region_iff(gs, gb, t);
        if a[t] {
            assert(region(gs, ga)[t]);
            assert(a[t] == b[t]);
        }
    }
}

/// A set with arrangements and no tiles matches every placement.
pub proof fn lemma_empty_region_match(s: ArrangementSet, gs: Seq<Seq<bool>>, p: Seq<bool>)
    requires
        s.wf_in(s.spec_mask().len(), gs.len()),
        groups_fit(gs, s.spec_mask().len()),
        on_groups(s, gs),
        s.spec_arrangements().len() > 0,
        forall|t: int| 0 <= t < s.spec_mask().len() ==> !#[trigger] s.spec_mask()[t],
    ensures
        has_match(s, p, gs),
{
    let n = s.spec_mask().len();
    s.lemma_wf_in(n, gs.len());
    let a = s.spec_arrangements()[0];
    let own = s.spec_groups();
    assert forall|g: int, t: int|
        #![trigger own[g], gs[g][t]]
        0 <= g < own.len() && own[g] && g < gs.len() && 0 <= t < gs[g].len() && gs[g][t] implies a[t] == first_n(
        gs[g],
        overlap_count(p, gs[g]) as int,
    )[t] by {
        lemma_region_iff(gs, own, t);
        assert(s.spec_mask()[t]);
    }
    assert(s.spec_arrangements().contains(a));
}

/// When every arrangement of `s` agrees with its first on `ov`, which covers the tiles `s` and
/// `o0` share, a placement matched by `s` and by the cut-down `o1` is matched by `o0`.
pub proof fn lemma_cut_restores_match(
    s: ArrangementSet,
    o0: ArrangementSet,
    o1: ArrangementSet,
    ov: Seq<bool>,
    gs: Seq<Seq<bool>>,
    p: Seq<bool>,
)
    requires
        s.wf_in(s.spec_mask().len(), gs.len()),
        o0.wf_in(s.spec_mask().len(), gs.len()),
        groups_fit(gs, s.spec_mask().len()),
        on_groups(s, gs),
        on_groups(o0, gs),
        ov.len() == s.spec_mask().len(),
        forall|t: int| 0 <= t < ov.len() && s.spec_mask()[t] && o0.spec_mask()[t] ==> #[trigger] ov[t],
        p.len() == s.spec_mask().len(),
        has_match(s, p, gs),
        has_match(o1, p, gs),
        s.spec_arrangements().len() > 0,
        forall|k: int| 1 <= k < s.spec_arrangements().len() ==> agree_on(
            #[trigger] s.spec_arrangements()[k],
            s.spec_arrangements()[0],
            ov,
        ),
        o1.spec_groups() == minus_seq(o0.spec_groups(), s.spec_groups()),
        forall|x: Seq<bool>| #[trigger] o1.spec_arrangements().contains(x) <==> exists|a: Seq<bool>|
            #[trigger] o0.spec_arrangements().contains(a) && agree_on(a, s.spec_arrangements()[0], ov) && x == minus_seq(
                a,
                s.spec_mask(),
            ),
    ensures
        has_match(o0, p, gs),
{
    let n = s.spec_mask().len();
    s.lemma_wf_in(n, gs.len());
    o0.lemma_wf_in(n, gs.len());
    let arrs = s.spec_arrangements();
    let a_s = choose|a: Seq<bool>| #[trigger] arrs.contains(a) && matches_on(a, p, gs, s.spec_groups());
    let ks = choose|ks: int| 0 <= ks < arrs.len() && arrs[ks] == a_s;
    let x = choose|x: Seq<bool>| #[trigger] o1.spec_arrangements().contains(x) && matches_on(x, p, gs, o1.spec_groups());
    let b = choose|b: Seq<bool>|
        #[trigger] o0.spec_arrangements().contains(b) && agree_on(b, arrs[0], ov) && x == minus_seq(b, s.spec_mask());
    let kb = choose|kb: int| 0 <= kb < o0.spec_arrangements().len() && o0.spec_arrangements()[kb] == b;
    assert(b.len() == n);
    let own = o0.spec_groups();
    assert forall|g: int, t: int|
        #![trigger own[g], gs[g][t]]
        0 <= g < own.len() && own[g] && g < gs.len() && 0 <= t < gs[g].len() && gs[g][t] implies b[t] == first_n(
        gs[g],
        overlap_count(p, gs[g]) as int,
    )[t] by {
        if s.spec_groups()[g] {
            lemma_region_iff(gs, s.spec_groups(), t);
            lemma_region_iff(gs, own, t);
            assert(s.spec_mask()[t] && o0.spec_mask()[t]);
            assert(ov[t]);
            assert(b[t] == arrs[0][t]);
            if ks > 0 {
                assert(agree_on(arrs[ks], arrs[0], ov));
            }
            assert(a_s[t] == arrs[0][t]);
        } else {
            assert(o1.spec_groups()[g]);
            lemma_outside_region(gs, s.spec_groups(), g, t);
            assert(x[t] == b[t]);
        }
    }
}


/// A placement matched by a set after a hint was joined to it was matched by the set before,
/// and meets the hint.
pub proof fn lemma_add_joined_back(
    cur0: ArrangementSet,
    cur1: ArrangementSet,
    gs: Seq<Seq<bool>>,
    group_set: Seq<bool>,
    num: nat,
    p: Seq<bool>,
)
    requires
        cur0.wf_in(group_set.len(), gs.len()),
        on_groups(cur0, gs),
        groups_fit(gs, group_set.len()),
        names_groups(group_set, gs),
        p.len() == group_set.len(),
        has_match(cur1, p, gs),
        cur1.spec_groups() == or_seq(cur0.spec_groups(), group_set),
        forall|x: Seq<bool>| #[trigger] cur1.spec_arrangements().contains(x) <==> hint_extension(
            x,
            cur0.spec_arrangements(),
            gs,
            cur0.spec_groups(),
            group_set,
            num,
        ),
    ensures
        has_match(cur0, p, gs),
        overlap_count(p, region(gs, group_set)) == num,
{
    let n = group_set.len();
    cur0.lemma_wf_in(n, gs.len());
    let own = cur0.spec_groups();
    let olds = cur0.spec_arrangements();
    let shared = shared_groups(own, group_set);
    let fresh = fresh_groups(own, group_set);
    lemma_hint_region_split(gs, own, group_set);
    let x = choose|x: Seq<bool>| #[trigger] cur1.spec_arrangements().contains(x) && matches_on(x, p, gs, cur1.spec_groups());
    let (a, c) = choose|a: Seq<bool>, c: Seq<bool>|
        #[trigger] olds.contains(a) && fits_hint(a, gs, own, group_set, num) && is_combination(
            c,
            gs,
            fresh,
            fresh_mines(a, gs, own, group_set, num),
        ) && x == #[trigger] or_seq(a, c);
    let ka = choose|ka: int| 0 <= ka < olds.len() && olds[ka] == a;
    assert(a.len() == n && subset(a, cur0.spec_mask()));
    crate::arrangements::lemma_combination_in_region(c, gs, fresh, fresh_mines(a, gs, own, group_set, num));
    assert(or_seq(own, fresh) =~= or_seq(own, group_set));
    lemma_split_match(a, c, p, gs, own, fresh);
    assert(has_match(cur0, p, gs));
    // the hint's mines: those of `a` on the shared groups and those of `c` on the fresh ones
    lemma_match_region_count(a, p, gs, own, shared);
    lemma_match_region_count(c, p, gs, fresh, fresh);
    lemma_combination_count(c, gs, fresh, fresh_mines(a, gs, own, group_set, num));
    lemma_overlap_or(p, region(gs, shared), region(gs, fresh));
}

/// A placement matched by a set cut down by a hint and by the completions split off from it
/// was matched by the set before, and meets the hint, when all the arrangements left put as
/// many mines on the hint's shared tiles.
pub proof fn lemma_add_split_back(
    cur0: ArrangementSet,
    cur1: ArrangementSet,
    other: ArrangementSet,
    gs: Seq<Seq<bool>>,
    group_set: Seq<bool>,
    num: nat,
    p: Seq<bool>,
)
    requires
        cur0.wf_in(group_set.len(), gs.len()),
        on_groups(cur0, gs),
        groups_fit(gs, group_set.len()),
        names_groups(group_set, gs),
        p.len() == group_set.len(),
        has_match(cur1, p, gs),
        has_match(other, p, gs),
        cur1.spec_groups() == cur0.spec_groups(),
        forall|x: Seq<bool>| #[trigger] cur1.spec_arrangements().contains(x) <==> cur0.spec_arrangements().contains(x)
            && fits_hint(x, gs, cur0.spec_groups(), group_set, num),
        forall|x: Seq<bool>, y: Seq<bool>|
            #[trigger] cur1.spec_arrangements().contains(x) && #[trigger] cur1.spec_arrangements().contains(y) ==> overlap_count(
                x,
                region(gs, shared_groups(cur0.spec_groups(), group_set)),
            ) == overlap_count(y, region(gs, shared_groups(cur0.spec_groups(), group_set))),
        other.spec_groups() == fresh_groups(cur0.spec_groups(), group_set),
        forall|x: Seq<bool>| #[trigger] other.spec_arrangements().contains(x) <==> exists|a: Seq<bool>|
            #[trigger] cur1.spec_arrangements().contains(a) && is_combination(
                x,
                gs,
                fresh_groups(cur0.spec_groups(), group_set),
                fresh_mines(a, gs, cur0.spec_groups(), group_set, num),
            ),
    ensures
        has_match(cur0, p, gs),
        overlap_count(p, region(gs, group_set)) == num,
{
    let n = group_set.len();
    cur0.lemma_wf_in(n, gs.len());
    let own = cur0.spec_groups();
    let shared = shared_groups(own, group_set);
    let fresh = fresh_groups(own, group_set);
    lemma_hint_region_split(gs, own, group_set);
    let a = choose|a: Seq<bool>| #[trigger] cur1.spec_arrangements().contains(a) && matches_on(a, p, gs, own);
    assert(cur0.spec_arrangements().contains(a));
    let ka = choose|ka: int| 0 <= ka < cur0.spec_arrangements().len() && cur0.spec_arrangements()[ka] == a;
    assert(a.len() == n);
    let c = choose|c: Seq<bool>| #[trigger] other.spec_arrangements().contains(c) && matches_on(c, p, gs, fresh);
    let a2 = choose|a2: Seq<bool>|
        #[trigger] cur1.spec_arrangements().contains(a2) && is_combination(c, gs, fresh, fresh_mines(a2, gs, own, group_set, num));
    assert(fits_hint(a2, gs, own, group_set, num));
    crate::arrangements::lemma_combination_in_region(c, gs, fresh, fresh_mines(a2, gs, own, group_set, num));
    lemma_match_region_count(a, p, gs, own, shared);
    lemma_match_region_count(c, p, gs, fresh, fresh);
    lemma_combination_count(c, gs, fresh, fresh_mines(a2, gs, own, group_set, num));
    lemma_overlap_or(p, region(gs, shared), region(gs, fresh));
}


// ---------------------------------------------------------------------------------------------
// Arrangements in canonical form

/// Every arrangement of the set holds, on each of the set's groups, the group's first tiles.
pub open spec fn canonical_set(s: ArrangementSet, gs: Seq<Seq<bool>>) -> bool {
    forall|a: Seq<bool>| #[trigger] s.spec_arrangements().contains(a) ==> matches_on(a, a, gs, s.spec_groups())
}

/// Every set of the list is in canonical form.
pub open spec fn all_canonical(subs: Seq<ArrangementSet>, gs: Seq<Seq<bool>>) -> bool {
    forall|k: int| 0 <= k < subs.len() ==> canonical_set(#[trigger] subs[k], gs)
}

/// A combination is in canonical form on its groups.
pub proof fn lemma_combination_canonical(c: Seq<bool>, gs: Seq<Seq<bool>>, group_set: Seq<bool>, num: nat)
    requires
        is_combination(c, gs, group_set, num),
        groups_fit(gs, group_set.len()),
        names_groups(group_set, gs),
    ensures
        matches_on(c, c, gs, group_set),
{
    let n = group_set.len();
    let order = ones_of(group_set);
    lemma_ones_of(group_set);
    lemma_order_ok(gs, group_set);
    crate::arrangements::lemma_combination_in_region(c, gs, group_set, num);
    let caps = caps_of(gs, order);
    let kv = choose|kv: Seq<usize>| valid(kv, caps, num) && c == #[trigger] canon(gs, order, kv, n);
    assert forall|g: int, t: int|
        #![trigger group_set[g], gs[g][t]]
        0 <= g < group_set.len() && group_set[g] && g < gs.len() && 0 <= t < gs[g].len() && gs[g][t] implies c[t] == first_n(
        gs[g],
        overlap_count(c, gs[g]) as int,
    )[t] by {
        assert(order.contains(g as usize));
        let j = choose|j: int| 0 <= j < order.len() && order[j] == g as usize;
        let gg = gs[g];
        crate::bits::lemma_true_count_le(gg);
        assert(kv[j] <= caps[j]);
        lemma_first_n(gg, kv[j] as int);
        assert forall|u: int| 0 <= u < n && #[trigger] gg[u] implies c[u] == first_n(gg, kv[j] as int)[u] by {
            lemma_canon_on_group(gs, order, kv, n, j, u);
        }
        lemma_overlap_agree(c, first_n(gg, kv[j] as int), gg);
        lemma_canon_on_group(gs, order, kv, n, j, t);
    }
}

/// A canonical arrangement matches every placement with its counts on its groups.
pub proof fn lemma_canonical_matches(a: Seq<bool>, p: Seq<bool>, gs: Seq<Seq<bool>>, group_set: Seq<bool>)
    requires
        matches_on(a, a, gs, group_set),
        forall|g: int| 0 <= g < group_set.len() && #[trigger] group_set[g] ==> overlap_count(p, gs[g]) == overlap_count(a, gs[g]),
    ensures
        matches_on(a, p, gs, group_set),
{
}

/// Two canonical parts that agree where their regions meet make a canonical whole.
pub proof fn lemma_join_canonical(a: Seq<bool>, b: Seq<bool>, gs: Seq<Seq<bool>>, ga: Seq<bool>, gb: Seq<bool>)
    requires
        matches_on(a, a, gs, ga),
        matches_on(b, b, gs, gb),
        ga.len() == a.len(),
        gb.len() == a.len(),
        b.len() == a.len(),
        groups_fit(gs, a.len()),
        names_groups(ga, gs),
        names_groups(gb, gs),
        subset(a, region(gs, ga)),
        subset(b, region(gs, gb)),
        forall|t: int| 0 <= t < a.len() && region(gs, ga)[t] && region(gs, gb)[t] ==> #[trigger] a[t] == b[t],
    ensures
        matches_on(or_seq(a, b), or_seq(a, b), gs, or_seq(ga, gb)),
{
    let x = or_seq(a, b);
    assert forall|g: int| 0 <= g < ga.len() && #[trigger] ga[g] implies overlap_count(x, gs[g]) == overlap_count(a, gs[g]) by {
        assert forall|t: int| 0 <= t < a.len() && #[trigger] gs[g][t] implies x[t] == a[t] by {
            lemma_region_iff(gs, ga, t);
            if b[t] {
                assert(region(gs, gb)[t]);
            }
        }
        lemma_overlap_agree(x, a, gs[g]);
    }
    assert forall|g: int| 0 <= g < gb.len() && #[trigger] gb[g] implies overlap_count(x, gs[g]) == overlap_count(b, gs[g]) by {
        assert forall|t: int| 0 <= t < a.len() && #[trigger] gs[g][t] implies x[t] == b[t] by {
            lemma_region_iff(gs, gb, t);
            if a[t] {
                assert(region(gs, ga)[t]);
            }
        }
        lemma_overlap_agree(x, b, gs[g]);
    }
    lemma_canonical_matches(a, x, gs, ga);
    lemma_canonical_matches(b, x, gs, gb);
    lemma_join_match(a, b, x, gs, ga, gb);
}

/// Taking the tiles of other groups out of a canonical arrangement leaves it canonical on the
/// groups left.
pub proof fn lemma_cut_canonical(a: Seq<bool>, gs: Seq<Seq<bool>>, own: Seq<bool>, other: Seq<bool>)
    requires
        matches_on(a, a, gs, own),
        a.len() == own.len(),
        other.len() == own.len(),
        groups_fit(gs, own.len()),
        names_groups(own, gs),
        names_groups(other, gs),
    ensures
        matches_on(minus_seq(a, region(gs, other)), minus_seq(a, region(gs, other)), gs, minus_seq(own, other)),
{
    let x = minus_seq(a, region(gs, other));
    let d = minus_seq(own, other);
    lemma_cut_match(a, a, gs, own, other);
    assert forall|g: int| 0 <= g < d.len() && #[trigger] d[g] implies overlap_count(x, gs[g]) == overlap_count(a, gs[g]) by {
        assert(own[g]);
        assert forall|t: int| 0 <= t < a.len() && #[trigger] gs[g][t] implies x[t] == a[t] by {
            lemma_outside_region(gs, other, g, t);
        }
        lemma_overlap_agree(x, a, gs[g]);
    }
    lemma_canonical_matches(x, a, gs, d);
    assert forall|g: int, t: int|
        #![trigger d[g], gs[g][t]]
        0 <= g < d.len() && d[g] && g < gs.len() && 0 <= t < gs[g].len() && gs[g][t] implies x[t] == first_n(
        gs[g],
        overlap_count(x, gs[g]) as int,
    )[t] by {
        assert(x[t] == first_n(gs[g], overlap_count(a, gs[g]) as int)[t]);
    }
}


/// Joining a hint to a canonical set keeps it canonical.
pub proof fn lemma_add_joined_canonical(cur0: ArrangementSet, cur1: ArrangementSet, gs: Seq<Seq<bool>>, group_set: Seq<bool>, num: nat)
    requires
        cur0.wf_in(group_set.len(), gs.len()),
        on_groups(cur0, gs),
        canonical_set(cur0, gs),
        groups_fit(gs, group_set.len()),
        names_groups(group_set, gs),
        cur1.spec_groups() == or_seq(cur0.spec_groups(), group_set),
        forall|x: Seq<bool>| #[trigger] cur1.spec_arrangements().contains(x) <==> hint_extension(
            x,
            cur0.spec_arrangements(),
            gs,
            cur0.spec_groups(),
            group_set,
            num,
        ),
    ensures
        canonical_set(cur1, gs),
{
    let n = group_set.len();
    cur0.lemma_wf_in(n, gs.len());
    let own = cur0.spec_groups();
    let olds = cur0.spec_arrangements();
    let fresh = fresh_groups(own, group_set);
    lemma_hint_region_split(gs, own, group_set);
    assert(or_seq(own, fresh) =~= or_seq(own, group_set));
    assert(names_groups(own, gs));
    assert forall|x: Seq<bool>| #[trigger] cur1.spec_arrangements().contains(x) implies matches_on(x, x, gs, cur1.spec_groups()) by {
        let (a, c) = choose|a: Seq<bool>, c: Seq<bool>|
            #[trigger] olds.contains(a) && fits_hint(a, gs, own, group_set, num) && is_combination(
                c,
                gs,
                fresh,
                fresh_mines(a, gs, own, group_set, num),
            ) && x == #[trigger] or_seq(a, c);
        let ka = choose|ka: int| 0 <= ka < olds.len() && olds[ka] == a;
        assert(a.len() == n && subset(a, cur0.spec_mask()));
        crate::arrangements::lemma_combination_in_region(c, gs, fresh, fresh_mines(a, gs, own, group_set, num));
        lemma_combination_canonical(c, gs, fresh, fresh_mines(a, gs, own, group_set, num));
        lemma_join_canonical(a, c, gs, own, fresh);
    }
}

/// Cutting a canonical set down by a hint and splitting off the completions leaves both sets
/// canonical.
pub proof fn lemma_add_split_canonical(
    cur0: ArrangementSet,
    cur1: ArrangementSet,
    other: ArrangementSet,
    gs: Seq<Seq<bool>>,
    group_set: Seq<bool>,
    num: nat,
)
    requires
        canonical_set(cur0, gs),
        groups_fit(gs, group_set.len()),
        names_groups(group_set, gs),
        cur0.wf_in(group_set.len(), gs.len()),
        cur1.spec_groups() == cur0.spec_groups(),
        forall|x: Seq<bool>| #[trigger] cur1.spec_arrangements().contains(x) <==> cur0.spec_arrangements().contains(x)
            && fits_hint(x, gs, cur0.spec_groups(), group_set, num),
        other.spec_groups() == fresh_groups(cur0.spec_groups(), group_set),
        forall|x: Seq<bool>| #[trigger] other.spec_arrangements().contains(x) <==> exists|a: Seq<bool>|
            #[trigger] cur1.spec_arrangements().contains(a) && is_combination(
                x,
                gs,
                fresh_groups(cur0.spec_groups(), group_set),
                fresh_mines(a, gs, cur0.spec_groups(), group_set, num),
            ),
    ensures
        canonical_set(cur1, gs),
        canonical_set(other, gs),
{
    cur0.lemma_wf_in(group_set.len(), gs.len());
    lemma_hint_region_split(gs, cur0.spec_groups(), group_set);
    assert forall|x: Seq<bool>| #[trigger] cur1.spec_arrangements().contains(x) implies matches_on(x, x, gs, cur1.spec_groups()) by {
        assert(cur0.spec_arrangements().contains(x));
    }
    assert forall|x: Seq<bool>| #[trigger] other.spec_arrangements().contains(x) implies matches_on(x, x, gs, other.spec_groups()) by {
        let a = choose|a: Seq<bool>|
            #[trigger] cur1.spec_arrangements().contains(a) && is_combination(
                x,
                gs,
                fresh_groups(cur0.spec_groups(), group_set),
                fresh_mines(a, gs, cur0.spec_groups(), group_set, num),
            );
        lemma_combination_canonical(x, gs, fresh_groups(cur0.spec_groups(), group_set), fresh_mines(a, gs, cur0.spec_groups(), group_set, num));
    }
}


/// Cutting a canonical set down to the arrangements that agree with another set on `ov`, less
/// the other set's tiles, leaves it canonical.
pub proof fn lemma_cut_set_canonical(s: ArrangementSet, o0: ArrangementSet, o1: ArrangementSet, ov: Seq<bool>, gs: Seq<Seq<bool>>)
    requires
        s.wf_in(s.spec_mask().len(), gs.len()),
        o0.wf_in(s.spec_mask().len(), gs.len()),
        groups_fit(gs, s.spec_mask().len()),
        on_groups(s, gs),
        canonical_set(o0, gs),
        o1.spec_groups() == minus_seq(o0.spec_groups(), s.spec_groups()),
        forall|x: Seq<bool>| #[trigger] o1.spec_arrangements().contains(x) <==> exists|a: Seq<bool>|
            #[trigger] o0.spec_arrangements().contains(a) && agree_on(a, s.spec_arrangements()[0], ov) && x == minus_seq(
                a,
                s.spec_mask(),
            ),
    ensures
        canonical_set(o1, gs),
{
    let n = s.spec_mask().len();
    s.lemma_wf_in(n, gs.len());
    o0.lemma_wf_in(n, gs.len());
    assert(names_groups(s.spec_groups(), gs));
    assert(names_groups(o0.spec_groups(), gs));
    assert forall|x: Seq<bool>| #[trigger] o1.spec_arrangements().contains(x) implies matches_on(x, x, gs, o1.spec_groups()) by {
        let a = choose|a: Seq<bool>|
            #[trigger] o0.spec_arrangements().contains(a) && agree_on(a, s.spec_arrangements()[0], ov) && x == minus_seq(
                a,
                s.spec_mask(),
            );
        let ka = choose|ka: int| 0 <= ka < o0.spec_arrangements().len() && o0.spec_arrangements()[ka] == a;
        assert(a.len() == n);
        lemma_cut_canonical(a, gs, o0.spec_groups(), s.spec_groups());
    }
}

} // verus!
