use vstd::prelude::*;
use crate::bits::{true_count, ones_of, lemma_ones_of};
use crate::bitset::{BitSet, len_fits};
use crate::arrangements::{sets_view, disjoint_groups};

verus! {

// ---------------------------------------------------------------------------------------------
// Mine counts per group
//
// A combination puts `kv[j]` mines on the `j`-th group of the group set, always on the group's
// first `kv[j]` tiles. Combinations are produced in increasing order of their count vectors,
// compared from the last group down (`lex_lt`).

/// The sum of the first `k` entries of `s`.
pub open spec fn psum(s: Seq<usize>, k: int) -> nat
    decreases k,
{
    if k <= 0 {
        0
    } else {
        (psum(s, k - 1) + s[k - 1]) as nat
    }
}

/// The sum of all entries of `s`.
pub open spec fn total(s: Seq<usize>) -> nat {
    psum(s, s.len() as int)
}

/// Each count is at most the size of its group.
pub open spec fn fits(kv: Seq<usize>, caps: Seq<usize>) -> bool {
    &&& kv.len() == caps.len()
    &&& forall|j: int| 0 <= j < kv.len() ==> #[trigger] kv[j] <= caps[j]
}

/// A count vector for `num` mines.
pub open spec fn valid(kv: Seq<usize>, caps: Seq<usize>, num: nat) -> bool {
    fits(kv, caps) && total(kv) == num
}

/// `a` comes before `b`: at the last position where they differ, `a` is smaller.
pub open spec fn lex_lt(a: Seq<usize>, b: Seq<usize>) -> bool {
    exists|j: int| 0 <= j < a.len() && a[j] < b[j] && forall|i: int| j < i < a.len() ==> a[i] == b[i]
}

/// The first count vector for `num` mines: every group filled in turn from the front.
pub open spec fn greedy(caps: Seq<usize>, num: nat) -> Seq<usize> {
    Seq::new(
        caps.len(),
        |i: int|
            if num <= psum(caps, i) {
                0usize
            } else if num - psum(caps, i) >= caps[i] {
                caps[i]
            } else {
                (num - psum(caps, i)) as usize
            },
    )
}

/// The first `k` elements of `g` (all of them if there are fewer).
pub open spec fn first_n(g: Seq<bool>, k: int) -> Seq<bool> {
    Seq::new(
        g.len(),
        |i: int|
            ones_of(g).take(if k < ones_of(g).len() { k } else { ones_of(g).len() as int }).contains(
                i as usize,
            ),
    )
}

/// The sizes of the groups listed in `order`.
pub open spec fn caps_of(gs: Seq<Seq<bool>>, order: Seq<usize>) -> Seq<usize> {
    Seq::new(order.len(), |j: int| true_count(gs[order[j] as int]) as usize)
}

/// The tiles of the combination with count vector `kv` over the groups listed in `order`.
pub open spec fn canon(gs: Seq<Seq<bool>>, order: Seq<usize>, kv: Seq<usize>, n: nat) -> Seq<bool> {
    Seq::new(
        n,
        |t: int| exists|j: int| 0 <= j < order.len() && #[trigger] first_n(gs[order[j] as int], kv[j] as int)[t],
    )
}

/// `s` puts `num` mines on the groups of `group_set`, on the first tiles of each group.
pub open spec fn is_combination(s: Seq<bool>, gs: Seq<Seq<bool>>, group_set: Seq<bool>, num: nat) -> bool {
    exists|kv: Seq<usize>|
        valid(kv, caps_of(gs, ones_of(group_set)), num) && s == #[trigger] canon(
            gs,
            ones_of(group_set),
            kv,
            group_set.len(),
        )
}

/// The tiles of the groups listed in `order`.
pub open spec fn groups_union(gs: Seq<Seq<bool>>, order: Seq<usize>, n: nat) -> Seq<bool> {
    Seq::new(n, |t: int| exists|j: int| 0 <= j < order.len() && #[trigger] gs[order[j] as int][t])
}

// ---------------------------------------------------------------------------------------------
// Sums

pub proof fn lemma_psum_mono(a: Seq<usize>, b: Seq<usize>, k: int)
    requires
        0 <= k <= a.len(),
        k <= b.len(),
        forall|i: int| 0 <= i < k ==> #[trigger] a[i] <= b[i],
    ensures
        psum(a, k) <= psum(b, k),
    decreases k,
{
    if k > 0 {
        lemma_psum_mono(a, b, k - 1);
    }
}

pub proof fn lemma_psum_le_total(a: Seq<usize>, k: int, l: int)
    requires
        0 <= k <= l,
    ensures
        psum(a, k) <= psum(a, l),
    decreases l,
{
    if l > k {
        lemma_psum_le_total(a, k, l - 1);
    }
}

/// Two sequences equal on `k..l` have the same sum there.
pub proof fn lemma_psum_tail_eq(a: Seq<usize>, b: Seq<usize>, k: int, l: int)
    requires
        0 <= k <= l,
        l <= a.len(),
        l <= b.len(),
        forall|i: int| k <= i < l ==> #[trigger] a[i] == b[i],
    ensures
        psum(a, l) - psum(a, k) == psum(b, l) - psum(b, k),
    decreases l,
{
    if l > k {
        lemma_psum_tail_eq(a, b, k, l - 1);
        lemma_psum_le_total(a, k, l - 1);
        lemma_psum_le_total(b, k, l - 1);
    }
}

proof fn lemma_psum_zero(a: Seq<usize>, k: int)
    requires
        0 <= k <= a.len(),
        forall|i: int| 0 <= i < k ==> #[trigger] a[i] == 0,
    ensures
        psum(a, k) == 0,
    decreases k,
{
    if k > 0 {
        lemma_psum_zero(a, k - 1);
    }
}

/// A vector of zeros for the sum 0.
proof fn lemma_psum_zero_all(a: Seq<usize>, k: int)
    requires
        0 <= k <= a.len(),
        psum(a, k) == 0,
    ensures
        forall|i: int| 0 <= i < k ==> #[trigger] a[i] == 0,
    decreases k,
{
    if k > 0 {
        lemma_psum_zero_all(a, k - 1);
    }
}

/// The greedy vector sums to `num` up to the point where the groups run out.
proof fn lemma_greedy_psum(caps: Seq<usize>, num: nat, k: int)
    requires
        0 <= k <= caps.len(),
    ensures
        psum(greedy(caps, num), k) == if num <= psum(caps, k) { num } else { psum(caps, k) },
    decreases k,
{
    if k > 0 {
        lemma_greedy_psum(caps, num, k - 1);
    }
}

/// The greedy vector is a count vector for `num` mines when the groups can hold them.
pub proof fn lemma_greedy_valid(caps: Seq<usize>, num: nat)
    requires
        num <= total(caps),
    ensures
        valid(greedy(caps, num), caps, num),
{
    lemma_greedy_psum(caps, num, caps.len() as int);
}

// ---------------------------------------------------------------------------------------------
// The order

pub proof fn lemma_lex_asym(a: Seq<usize>, b: Seq<usize>)
    requires
        a.len() == b.len(),
        lex_lt(a, b),
    ensures
        !lex_lt(b, a),
        a != b,
{
    let j = choose|j: int| 0 <= j < a.len() && a[j] < b[j] && forall|i: int| j < i < a.len() ==> a[i] == b[i];
    if lex_lt(b, a) {
        let k = choose|k: int| 0 <= k < b.len() && b[k] < a[k] && forall|i: int| k < i < b.len() ==> b[i] == a[i];
        if j < k {
            assert(a[k] == b[k]);
        } else if k < j {
            assert(b[j] == a[j]);
        }
    }
}

/// Two different vectors of one length are ordered one way or the other.
pub proof fn lemma_lex_total(a: Seq<usize>, b: Seq<usize>)
    requires
        a.len() == b.len(),
        a != b,
    ensures
        lex_lt(a, b) || lex_lt(b, a),
    decreases a.len(),
{
    if a.len() == 0 {
        assert(a =~= b);
    } else if a.last() != b.last() {
        let j = a.len() - 1;
        if a[j] < b[j] {
            assert(lex_lt(a, b));
        } else {
            assert(lex_lt(b, a));
        }
    } else {
        let a1 = a.drop_last();
        let b1 = b.drop_last();
        if a1 == b1 {
            assert(a =~= b) by {
                assert forall|i: int| 0 <= i < a.len() implies a[i] == b[i] by {
                    if i < a.len() - 1 {
                        assert(a1[i] == b1[i]);
                    }
                }
            }
        }
        lemma_lex_total(a1, b1);
        if lex_lt(a1, b1) {
            let j = choose|j: int| 0 <= j < a1.len() && a1[j] < b1[j] && forall|i: int| j < i < a1.len() ==> a1[i] == b1[i];
            assert(a[j] < b[j]);
            assert forall|i: int| j < i < a.len() implies a[i] == b[i] by {
                if i < a.len() - 1 {
                    assert(a1[i] == b1[i]);
                }
            }
        } else {
            let j = choose|j: int| 0 <= j < b1.len() && b1[j] < a1[j] && forall|i: int| j < i < b1.len() ==> b1[i] == a1[i];
            assert(b[j] < a[j]);
            assert forall|i: int| j < i < b.len() implies b[i] == a[i] by {
                if i < b.len() - 1 {
                    assert(a1[i] == b1[i]);
                }
            }
        }
    }
}

/// No count vector for the same total comes before the greedy one.
proof fn lemma_greedy_min(caps: Seq<usize>, num: nat, v: Seq<usize>, p: int, b: int)
    requires
        0 <= b < p <= caps.len(),
        p <= v.len(),
        forall|i: int| 0 <= i < p ==> #[trigger] v[i] <= caps[i],
        psum(v, p) == num,
        num <= psum(caps, p),
        forall|i: int| b < i < p ==> #[trigger] v[i] == greedy(caps, num)[i],
    ensures
        !(v[b] < greedy(caps, num)[b]),
{
    let g = greedy(caps, num);
    lemma_greedy_psum(caps, num, p);
    lemma_greedy_psum(caps, num, b + 1);
    lemma_greedy_psum(caps, num, b);
    lemma_psum_tail_eq(v, g, b + 1, p);
    lemma_psum_mono(v, caps, b);
    if v[b] < g[b] {
        assert(num > psum(caps, b));
        assert(psum(v, b + 1) == psum(v, b) + v[b]);
        assert(psum(caps, b + 1) == psum(caps, b) + caps[b]);
        lemma_psum_le_total(v, b + 1, p);
    }
}

/// A vector that is zero below `s` and full on `s + 1 .. j` comes last among the vectors
/// with its sum on `0..j`.
proof fn lemma_top_max(kv: Seq<usize>, w: Seq<usize>, caps: Seq<usize>, s: int, j: int, b: int)
    requires
        0 <= s < j <= kv.len(),
        j <= w.len(),
        j <= caps.len(),
        0 <= b < j,
        forall|i: int| 0 <= i < s ==> #[trigger] kv[i] == 0,
        forall|i: int| s < i < j ==> #[trigger] kv[i] == caps[i],
        forall|i: int| 0 <= i < j ==> #[trigger] w[i] <= caps[i],
        psum(kv, j) == psum(w, j),
        forall|i: int| b < i < j ==> #[trigger] kv[i] == w[i],
    ensures
        !(kv[b] < w[b]),
{
    lemma_psum_tail_eq(kv, w, b + 1, j);
    if kv[b] < w[b] {
        if b < s {
            lemma_psum_zero(kv, b + 1);
        } else if b == s {
            lemma_psum_zero(kv, s);
        } else {
        }
    }
}

// ---------------------------------------------------------------------------------------------
// Mixed-radix rank: a bounded measure that grows with the order

pub open spec fn radix(caps: Seq<usize>) -> nat
    decreases caps.len(),
{
    if caps.len() == 0 {
        1
    } else {
        radix(caps.drop_last()) * (caps.last() + 1) as nat
    }
}

pub open spec fn rank(kv: Seq<usize>, caps: Seq<usize>) -> nat
    decreases kv.len(),
{
    if kv.len() == 0 || caps.len() == 0 {
        0
    } else {
        (rank(kv.drop_last(), caps.drop_last()) + kv.last() * radix(caps.drop_last())) as nat
    }
}

proof fn lemma_rank_bound(kv: Seq<usize>, caps: Seq<usize>)
    requires
        fits(kv, caps),
    ensures
        rank(kv, caps) < radix(caps),
    decreases kv.len(),
{
    if kv.len() > 0 {
        let k1 = kv.drop_last();
        let c1 = caps.drop_last();
        assert(fits(k1, c1)) by {
            assert forall|j: int| 0 <= j < k1.len() implies #[trigger] k1[j] <= c1[j] by {
                assert(kv[j] <= caps[j]);
            }
        }
        lemma_rank_bound(k1, c1);
        let r = rank(k1, c1);
        let p = radix(c1);
        let x = kv.last() as nat;
        let c = caps.last() as nat;
        assert(x <= c);
        assert(r + x * p < p * (c + 1)) by (nonlinear_arith)
            requires
                r < p,
                x <= c,
        ;
        assert(radix(caps) == p * (c + 1));
        assert(rank(kv, caps) == r + x * p);
    }
}

proof fn lemma_rank_mono(a: Seq<usize>, b: Seq<usize>, caps: Seq<usize>)
    requires
        fits(a, caps),
        fits(b, caps),
        lex_lt(a, b),
    ensures
        rank(a, caps) < rank(b, caps),
    decreases a.len(),
{
    let j = choose|j: int| 0 <= j < a.len() && a[j] < b[j] && forall|i: int| j < i < a.len() ==> a[i] == b[i];
    let a1 = a.drop_last();
    let b1 = b.drop_last();
    let c1 = caps.drop_last();
    assert(fits(a1, c1)) by {
        assert forall|i: int| 0 <= i < a1.len() implies #[trigger] a1[i] <= c1[i] by {
            assert(a[i] <= caps[i]);
        }
    }
    assert(fits(b1, c1)) by {
        assert forall|i: int| 0 <= i < b1.len() implies #[trigger] b1[i] <= c1[i] by {
            assert(b[i] <= caps[i]);
        }
    }
    let p = radix(c1);
    if j == a.len() - 1 {
        lemma_rank_bound(a1, c1);
        let ra = rank(a1, c1);
        let rb = rank(b1, c1);
        let x = a.last() as nat;
        let y = b.last() as nat;
        assert(ra + x * p < rb + y * p) by (nonlinear_arith)
            requires
                ra < p,
                x < y,
        ;
    } else {
        assert(lex_lt(a1, b1)) by {
            assert(a1[j] < b1[j]);
            assert forall|i: int| j < i < a1.len() implies a1[i] == b1[i] by {
                assert(a[i] == b[i]);
            }
        }
        lemma_rank_mono(a1, b1, c1);
        assert(a.last() == b.last());
    }
}


// ---------------------------------------------------------------------------------------------
// Sizes of disjoint groups

pub(crate) proof fn lemma_true_count_disjoint_or(a: Seq<bool>, b: Seq<bool>)
    requires
        a.len() == b.len(),
        forall|i: int| 0 <= i < a.len() ==> !(#[trigger] a[i] && b[i]),
    ensures
        true_count(Seq::new(a.len(), |i: int| a[i] || b[i])) == true_count(a) + true_count(b),
    decreases a.len(),
{
    let u = Seq::new(a.len(), |i: int| a[i] || b[i]);
    if a.len() > 0 {
        let a1 = a.drop_last();
        let b1 = b.drop_last();
        lemma_true_count_disjoint_or(a1, b1);
        assert(u.drop_last() =~= Seq::new(a1.len(), |i: int| a1[i] || b1[i]));
        assert(!(a.last() && b.last()));
    }
}

/// The groups listed in `order` hold `psum` of their sizes tiles together, so no more than `n`.
proof fn lemma_caps_psum(gs: Seq<Seq<bool>>, order: Seq<usize>, n: nat, k: int)
    requires
        0 <= k <= order.len(),
        disjoint_groups(gs),
        forall|j: int| 0 <= j < order.len() ==> #[trigger] order[j] < gs.len(),
        forall|a: int, b: int| 0 <= a < b < order.len() ==> order[a] < order[b],
        forall|g: int| 0 <= g < gs.len() ==> (#[trigger] gs[g]).len() == n,
        n <= usize::MAX,
    ensures
        psum(caps_of(gs, order), k) == true_count(groups_union(gs, order.take(k), n)),
        psum(caps_of(gs, order), k) <= n,
    decreases k,
{
    let u = groups_union(gs, order.take(k), n);
    if k == 0 {
        crate::bits::lemma_true_count_zero(u);
    } else {
        lemma_caps_psum(gs, order, n, k - 1);
        let u0 = groups_union(gs, order.take(k - 1), n);
        let g = gs[order[k - 1] as int];
        assert(u =~= Seq::new(n, |t: int| u0[t] || g[t])) by {
            assert forall|t: int| 0 <= t < n implies u[t] == (u0[t] || g[t]) by {
                if u[t] {
                    let j = choose|j: int| 0 <= j < k && #[trigger] gs[order.take(k)[j] as int][t];
                    if j < k - 1 {
                        assert(gs[order.take(k - 1)[j] as int][t]);
                    }
                }
                if u0[t] {
                    let j = choose|j: int| 0 <= j < k - 1 && #[trigger] gs[order.take(k - 1)[j] as int][t];
                    assert(gs[order.take(k)[j] as int][t]);
                }
                if g[t] {
                    assert(gs[order.take(k)[k - 1] as int][t]);
                }
            }
        }
        assert forall|t: int| 0 <= t < n implies !(#[trigger] u0[t] && g[t]) by {
            if u0[t] {
                let j = choose|j: int| 0 <= j < k - 1 && #[trigger] gs[order.take(k - 1)[j] as int][t];
                assert(order[j] < order[k - 1]);
                assert(!(gs[order[j] as int][t] && gs[order[k - 1] as int][t]));
            }
        }
        lemma_true_count_disjoint_or(u0, g);
        crate::bits::lemma_true_count_le(u);
        assert(caps_of(gs, order)[k - 1] == true_count(g) as usize);
    }
}

// ---------------------------------------------------------------------------------------------
// Stepping through the count vectors

/// Adds the greedy vector for `num` mines to the first `p` counts, which are zero.
fn fill_front(caps: &Vec<usize>, kv: &mut Vec<usize>, num: usize, Ghost(p): Ghost<int>)
    requires
        old(kv)@.len() == caps@.len(),
        0 <= p <= caps@.len(),
        forall|i: int| 0 <= i < p ==> #[trigger] old(kv)@[i] == 0,
        num <= psum(caps@, p),
    ensures
        final(kv)@.len() == caps@.len(),
        forall|i: int| 0 <= i < p ==> #[trigger] final(kv)@[i] == greedy(caps@, num as nat)[i],
        forall|i: int| p <= i < caps@.len() ==> #[trigger] final(kv)@[i] == old(kv)@[i],
{
    let ghost kv0 = kv@;
    let ghost g = greedy(caps@, num as nat);
    let mut rem = num;
    let mut i: usize = 0;
    let mut done = false;
    while i < kv.len() && !done
        invariant
            kv@.len() == caps@.len(),
            kv0.len() == caps@.len(),
            0 <= p <= caps@.len(),
            num <= psum(caps@, p),
            g == greedy(caps@, num as nat),
            forall|k: int| 0 <= k < p ==> #[trigger] kv0[k] == 0,
            i <= kv@.len(),
            !done ==> rem == (if num <= psum(caps@, i as int) { 0 } else { num - psum(caps@, i as int) }),
            !done ==> forall|k: int| 0 <= k < i && k < p ==> #[trigger] kv@[k] == g[k],
            !done ==> forall|k: int| i <= k < caps@.len() ==> #[trigger] kv@[k] == kv0[k],
            done ==> forall|k: int| 0 <= k < p ==> #[trigger] kv@[k] == g[k],
            done ==> forall|k: int| p <= k < caps@.len() ==> #[trigger] kv@[k] == kv0[k],
            !done ==> i <= p,
        decreases kv.len() - i + (if done { 0int } else { 1int }),
    {
        let ghost before = kv@;
        if caps[i] >= rem {
            let v = kv[i] + rem;
            kv.set(i, v);
            done = true;
            proof {
                assert forall|k: int| p <= k < caps@.len() implies #[trigger] kv@[k] == kv0[k] by {
                    if k == i {
                        assert(before[k] == kv0[k]);
                    } else {
                        assert(before[k] == kv0[k]);
                    }
                }
                assert forall|k: int| 0 <= k < p implies #[trigger] kv@[k] == g[k] by {
                    if k > i {
                        lemma_psum_le_total(caps@, i + 1, k);
                    }
                }
            }
        } else {
            proof {
                assert(i < p) by {
                    if i >= p {
                        lemma_psum_le_total(caps@, p, i as int);
                    }
                }
            }
            let v = kv[i] + caps[i];
            kv.set(i, v);
            rem = rem - caps[i];
            i = i + 1;
        }
    }
}

/// The vector built by `next_combination` from `k0`: zeros below `s`, where the first nonzero
/// count stands, full groups up to `j`, and `j` the first group after `s` with room; the next
/// vector adds a mine to group `j` and refills the groups below it greedily.
proof fn lemma_next_step(k0: Seq<usize>, nk: Seq<usize>, caps: Seq<usize>, s: int, j: int)
    requires
        fits(k0, caps),
        0 <= s < j < k0.len(),
        k0[s] > 0,
        forall|i: int| 0 <= i < s ==> #[trigger] k0[i] == 0,
        forall|i: int| s < i < j ==> #[trigger] k0[i] == caps[i],
        k0[j] < caps[j],
        nk.len() == k0.len(),
        nk[j] == k0[j] + 1,
        forall|i: int| j < i < k0.len() ==> #[trigger] nk[i] == k0[i],
        forall|i: int| 0 <= i < j ==> #[trigger] nk[i] == greedy(caps, (psum(k0, j) - 1) as nat)[i],
    ensures
        valid(nk, caps, total(k0)),
        lex_lt(k0, nk),
        forall|v: Seq<usize>| #[trigger] valid(v, caps, total(k0)) ==> !(lex_lt(k0, v) && lex_lt(v, nk)),
{
    let m = k0.len() as int;
    let num = total(k0);
    lemma_psum_zero(k0, s);
    lemma_psum_le_total(k0, s + 1, j);
    assert(psum(k0, s + 1) == psum(k0, s) + k0[s]);
    lemma_psum_mono(k0, caps, j);
    let z = (psum(k0, j) - 1) as nat;
    let g = greedy(caps, z);
    lemma_greedy_psum(caps, z, j);
    lemma_psum_tail_eq(nk, g, 0, j);
    lemma_psum_tail_eq(nk, k0, j + 1, m);
    assert(psum(nk, j + 1) == psum(nk, j) + nk[j]);
    assert(psum(k0, j + 1) == psum(k0, j) + k0[j]);
    lemma_psum_le_total(nk, j + 1, m);
    lemma_psum_le_total(k0, j + 1, m);
    assert(total(nk) == num);
    assert forall|i: int| 0 <= i < nk.len() implies #[trigger] nk[i] <= caps[i] by {
        if i < j {
            assert(nk[i] == g[i]);
        }
    }
    assert(lex_lt(k0, nk)) by {
        assert(k0[j] < nk[j]);
    }
    assert forall|v: Seq<usize>| #[trigger] valid(v, caps, num) implies !(lex_lt(k0, v) && lex_lt(v, nk)) by {
        if lex_lt(k0, v) && lex_lt(v, nk) {
            let a = choose|a: int| 0 <= a < v.len() && v[a] < nk[a] && forall|i: int| a < i < v.len() ==> v[i] == nk[i];
            if a > j {
                assert(lex_lt(v, k0));
                lemma_lex_asym(k0, v);
            } else if a == j {
                if v[a] < k0[a] {
                    assert(lex_lt(v, k0));
                    lemma_lex_asym(k0, v);
                } else {
                    let b = choose|b: int| 0 <= b < k0.len() && k0[b] < v[b] && forall|i: int| b < i < k0.len() ==> k0[i] == v[i];
                    lemma_psum_tail_eq(v, k0, j, m);
                    if b < j {
                        lemma_top_max(k0, v, caps, s, j, b);
                    }
                }
            } else {
                lemma_psum_tail_eq(v, k0, j + 1, m);
                assert(psum(v, j + 1) == psum(v, j) + v[j]);
                lemma_psum_le_total(v, j + 1, m);
                lemma_greedy_min(caps, z, v, j, a);
            }
        }
    }
}


/// The next count vector after `kv` for the same number of mines, if there is one.
fn next_combination(caps: &Vec<usize>, start: Vec<usize>) -> (r: Option<Vec<usize>>)
    requires
        fits(start@, caps@),
        total(caps@) <= usize::MAX,
    ensures
        match r {
            Some(nk) => {
                &&& valid(nk@, caps@, total(start@))
                &&& lex_lt(start@, nk@)
                &&& forall|v: Seq<usize>| #[trigger] valid(v, caps@, total(start@)) ==> !(lex_lt(start@, v) && lex_lt(v, nk@))
            },
            None => forall|v: Seq<usize>| #[trigger] valid(v, caps@, total(start@)) ==> !lex_lt(start@, v),
        },
{
    let ghost k0 = start@;
    let ghost num = total(start@);
    let m = start.len();
    let mut kv = start;
    let mut s: usize = 0;
    while s < m && kv[s] == 0
        invariant
            kv@ == k0,
            start@ == k0,
            m == k0.len(),
            s <= m,
            forall|i: int| 0 <= i < s ==> #[trigger] k0[i] == 0,
        decreases m - s,
    {
        s = s + 1;
    }
    if s == m {
        proof {
            lemma_psum_zero(k0, m as int);
            assert forall|v: Seq<usize>| #[trigger] valid(v, caps@, num) implies !lex_lt(k0, v) by {
                lemma_psum_zero_all(v, v.len() as int);
                if lex_lt(k0, v) {
                    let j = choose|j: int| 0 <= j < k0.len() && k0[j] < v[j] && forall|i: int| j < i < k0.len() ==> k0[i] == v[i];
                }
            }
        }
        return None;
    }
    proof {
        lemma_psum_mono(k0, caps@, m as int);
        lemma_psum_le_total(k0, s + 1, m as int);
        lemma_psum_zero(k0, s as int);
    }
    let mut zeroed = kv[s];
    kv.set(s, 0);
    let mut j = s + 1;
    while j < m
        invariant
            fits(k0, caps@),
            total(caps@) <= usize::MAX,
            num == total(k0),
            m == k0.len(),
            kv@.len() == m,
            s < j <= m,
            k0[s as int] > 0,
            forall|i: int| 0 <= i < s ==> #[trigger] k0[i] == 0,
            forall|i: int| s < i < j ==> #[trigger] k0[i] == caps@[i],
            forall|i: int| 0 <= i < j ==> #[trigger] kv@[i] == 0,
            forall|i: int| j <= i < m ==> #[trigger] kv@[i] == k0[i],
            zeroed == psum(k0, j as int),
            zeroed > 0,
            start@ == k0,
        decreases m - j,
    {
        proof {
            lemma_psum_le_total(k0, j + 1, m as int);
            lemma_psum_mono(k0, caps@, m as int);
        }
        if kv[j] < caps[j] {
            let v = kv[j] + 1;
            kv.set(j, v);
            proof {
                lemma_psum_mono(k0, caps@, j as int);
            }
            fill_front(caps, &mut kv, zeroed - 1, Ghost(j as int));
            proof {
                lemma_next_step(k0, kv@, caps@, s as int, j as int);
            }
            return Some(kv);
        }
        zeroed = zeroed + kv[j];
        kv.set(j, 0);
        j = j + 1;
    }
    proof {
        assert forall|v: Seq<usize>| #[trigger] valid(v, caps@, num) implies !lex_lt(k0, v) by {
            if lex_lt(k0, v) {
                let b = choose|b: int| 0 <= b < k0.len() && k0[b] < v[b] && forall|i: int| b < i < k0.len() ==> k0[i] == v[i];
                lemma_top_max(k0, v, caps@, s as int, m as int, b);
            }
        }
    }
    None
}


pub proof fn lemma_lex_trans(a: Seq<usize>, b: Seq<usize>, c: Seq<usize>)
    requires
        a.len() == b.len(),
        b.len() == c.len(),
        lex_lt(a, b),
        lex_lt(b, c),
    ensures
        lex_lt(a, c),
{
    let j1 = choose|j: int| 0 <= j < a.len() && a[j] < b[j] && forall|i: int| j < i < a.len() ==> a[i] == b[i];
    let j2 = choose|j: int| 0 <= j < b.len() && b[j] < c[j] && forall|i: int| j < i < b.len() ==> b[i] == c[i];
    if j1 >= j2 {
        assert(a[j1] < c[j1]);
        assert forall|i: int| j1 < i < a.len() implies a[i] == c[i] by {
            assert(a[i] == b[i]);
        }
    } else {
        assert(a[j2] < c[j2]);
        assert forall|i: int| j2 < i < a.len() implies a[i] == c[i] by {
            assert(a[i] == b[i]);
        }
    }
}

/// A count vector never sums to more than the groups hold.
proof fn lemma_total_le_caps(v: Seq<usize>, caps: Seq<usize>)
    requires
        fits(v, caps),
    ensures
        total(v) <= total(caps),
{
    lemma_psum_mono(v, caps, v.len() as int);
}

/// The groups listed in `order` exist, have `n` tiles, are listed in increasing order, and do
/// not overlap.
pub open spec fn groups_ok(gs: Seq<Seq<bool>>, order: Seq<usize>, n: nat) -> bool {
    &&& disjoint_groups(gs)
    &&& forall|j: int| 0 <= j < order.len() ==> #[trigger] order[j] < gs.len()
    &&& forall|a: int, b: int| 0 <= a < b < order.len() ==> order[a] < order[b]
    &&& forall|g: int| 0 <= g < gs.len() ==> (#[trigger] gs[g]).len() == n
    &&& len_fits(n)
}

/// Group `j` tells two count vectors apart: the tile after the first `ka[j]` tiles of the
/// group is in the combination of `kb` and not in that of `ka`.
proof fn lemma_canon_differs(gs: Seq<Seq<bool>>, order: Seq<usize>, ka: Seq<usize>, kb: Seq<usize>, n: nat, j: int)
    requires
        groups_ok(gs, order, n),
        fits(ka, caps_of(gs, order)),
        fits(kb, caps_of(gs, order)),
        0 <= j < order.len(),
        ka[j] < kb[j],
    ensures
        canon(gs, order, ka, n) != canon(gs, order, kb, n),
{
    let g = gs[order[j] as int];
    lemma_ones_of(g);
    let ones = ones_of(g);
    assert(kb[j] <= caps_of(gs, order)[j]);
    let x = ones[ka[j] as int];
    assert(x < n && g[x as int]);
    assert(first_n(g, kb[j] as int)[x as int]) by {
        assert(ones.take(kb[j] as int)[ka[j] as int] == x);
    }
    assert(canon(gs, order, kb, n)[x as int]);
    assert(!canon(gs, order, ka, n)[x as int]) by {
        if canon(gs, order, ka, n)[x as int] {
            let j2 = choose|j2: int| 0 <= j2 < order.len() && #[trigger] first_n(gs[order[j2] as int], ka[j2] as int)[x as int];
            let g2 = gs[order[j2] as int];
            lemma_ones_of(g2);
            let ones2 = ones_of(g2);
            let lim = if (ka[j2] as int) < ones2.len() { ka[j2] as int } else { ones2.len() as int };
            let i = choose|i: int| 0 <= i < lim && #[trigger] ones2.take(lim)[i] == x;
            assert(ones2[i] == x);
            if j2 == j {
                assert(ones[i] < ones[ka[j] as int]);
            } else {
                assert(g2[x as int]);
                if j2 < j {
                    assert(order[j2] < order[j]);
                } else {
                    assert(order[j] < order[j2]);
                }
                assert(!(gs[order[j2] as int][x as int] && gs[order[j] as int][x as int]));
            }
        }
    }
}

/// Different count vectors give different combinations.
pub proof fn lemma_canon_injective(gs: Seq<Seq<bool>>, order: Seq<usize>, ka: Seq<usize>, kb: Seq<usize>, n: nat)
    requires
        groups_ok(gs, order, n),
        fits(ka, caps_of(gs, order)),
        fits(kb, caps_of(gs, order)),
        ka != kb,
    ensures
        canon(gs, order, ka, n) != canon(gs, order, kb, n),
{
    assert(exists|j: int| 0 <= j < ka.len() && ka[j] != kb[j]) by {
        if forall|j: int| 0 <= j < ka.len() ==> ka[j] == kb[j] {
            assert(ka =~= kb);
        }
    }
    let j = choose|j: int| 0 <= j < ka.len() && ka[j] != kb[j];
    if ka[j] < kb[j] {
        lemma_canon_differs(gs, order, ka, kb, n, j);
    } else {
        lemma_canon_differs(gs, order, kb, ka, n, j);
    }
}

/// The set of tiles of the combination with count vector `kv`.
fn materialize(groups: &Vec<BitSet>, order: &Vec<usize>, kv: &Vec<usize>, n: usize) -> (r: BitSet)
    requires
        len_fits(n as nat),
        kv@.len() == order@.len(),
        forall|j: int| 0 <= j < order@.len() ==> #[trigger] order@[j] < groups@.len(),
        forall|g: int| 0 <= g < groups@.len() ==> (#[trigger] groups@[g]).wf() && groups@[g]@.len() == n,
    ensures
        r.wf(),
        r@ == canon(sets_view(groups@), order@, kv@, n as nat),
{
    let ghost gs = sets_view(groups@);
    let mut out = BitSet::zeros(n);
    let mut j: usize = 0;
    while j < order.len()
        invariant
            len_fits(n as nat),
            gs == sets_view(groups@),
            kv@.len() == order@.len(),
            forall|j: int| 0 <= j < order@.len() ==> #[trigger] order@[j] < groups@.len(),
            forall|g: int| 0 <= g < groups@.len() ==> (#[trigger] groups@[g]).wf() && groups@[g]@.len() == n,
            out.wf(),
            j <= order@.len(),
            out@ == Seq::new(
                n as nat,
                |t: int| exists|i: int| 0 <= i < j && #[trigger] first_n(gs[order@[i] as int], kv@[i] as int)[t],
            ),
        decreases order.len() - j,
    {
        let piece = groups[order[j]].first_n_ones(kv[j]);
        let ghost before = out@;
        proof {
            assert(piece@ =~= first_n(gs[order@[j as int] as int], kv@[j as int] as int));
        }
        out.add_assign(&piece);
        proof {
            assert forall|t: int| 0 <= t < n implies out@[t] == exists|i: int|
                0 <= i < j + 1 && #[trigger] first_n(gs[order@[i] as int], kv@[i] as int)[t] by {
                if exists|i: int| 0 <= i < j + 1 && #[trigger] first_n(gs[order@[i] as int], kv@[i] as int)[t] {
                    let i = choose|i: int| 0 <= i < j + 1 && #[trigger] first_n(gs[order@[i] as int], kv@[i] as int)[t];
                    if i < j {
                        assert(before[t]);
                    }
                }
            }
            assert(out@ =~= Seq::new(
                n as nat,
                |t: int| exists|i: int| 0 <= i < j + 1 && #[trigger] first_n(gs[order@[i] as int], kv@[i] as int)[t],
            ));
        }
        j = j + 1;
    }
    assert(out@ =~= canon(gs, order@, kv@, n as nat));
    out
}

/// Steps through the combinations of `num` mines on a set of groups, each combination putting
/// its mines on the first tiles of each group.
pub struct CombinationsIter<'a> {
    groups: &'a Vec<BitSet>,
    order: Vec<usize>,
    caps: Vec<usize>,
    len: usize,
    next: Option<Vec<usize>>,
    group_set: Ghost<Seq<bool>>,
    num: Ghost<nat>,
}

impl<'a> CombinationsIter<'a> {
    /// The count vector of the next combination, if any.
    pub closed spec fn state(&self) -> Option<Seq<usize>> {
        match self.next {
            Some(v) => Some(v@),
            None => None,
        }
    }

    /// The sizes of the groups, in group order.
    pub closed spec fn spec_caps(&self) -> Seq<usize> {
        self.caps@
    }

    /// The groups of tiles.
    pub closed spec fn spec_groups(&self) -> Seq<Seq<bool>> {
        sets_view(self.groups@)
    }

    /// The indices of the groups that take mines.
    pub closed spec fn spec_group_set(&self) -> Seq<bool> {
        self.group_set@
    }

    /// The number of mines of each combination.
    pub closed spec fn spec_num(&self) -> nat {
        self.num@
    }

    /// The number of tiles of each combination.
    pub closed spec fn spec_len(&self) -> nat {
        self.len as nat
    }

    /// The group sizes belong to the groups of the group set, and the next count vector is one
    /// for `num` mines.
    pub closed spec fn inv(&self) -> bool {
        let gs = sets_view(self.groups@);
        &&& self.order@ == ones_of(self.group_set@)
        &&& self.caps@ == caps_of(gs, self.order@)
        &&& groups_ok(gs, self.order@, self.len as nat)
        &&& forall|g: int| 0 <= g < self.groups@.len() ==> (#[trigger] self.groups@[g]).wf()
        &&& total(self.caps@) <= self.len
        &&& match self.next {
            Some(v) => valid(v@, self.caps@, self.num@),
            None => true,
        }
    }

    /// Starts at the first combination: the groups filled in turn from the front. There is none
    /// when the groups hold fewer than `num` tiles.
    pub fn new(groups: &'a Vec<BitSet>, group_set: &BitSet, num: usize) -> (r: Self)
        requires
            group_set.wf(),
            len_fits(group_set@.len()),
            disjoint_groups(sets_view(groups@)),
            forall|g: int| 0 <= g < groups@.len() ==> (#[trigger] groups@[g]).wf() && groups@[g]@.len() == group_set@.len(),
            forall|g: int| 0 <= g < group_set@.len() && #[trigger] group_set@[g] ==> g < groups@.len(),
        ensures
            r.inv(),
            r.spec_groups() == sets_view(groups@),
            r.spec_group_set() == group_set@,
            r.spec_num() == num,
            r.spec_len() == group_set@.len(),
            r.spec_caps() == caps_of(sets_view(groups@), ones_of(group_set@)),
            groups_ok(sets_view(groups@), ones_of(group_set@), group_set@.len()),
            r.state() == if num <= total(r.spec_caps()) {
                Some(greedy(r.spec_caps(), num as nat))
            } else {
                None::<Seq<usize>>
            },
    {
        let ghost gs = sets_view(groups@);
        let n = group_set.len();
        let order = group_set.iter_ones();
        proof {
            crate::bitset::lemma_storage_covers(group_set);
            lemma_ones_of(group_set@);
        }
        let mut caps: Vec<usize> = Vec::new();
        let mut num_tiles: usize = 0;
        let mut j: usize = 0;
        proof {
            assert(groups_ok(gs, order@, n as nat));
        }
        while j < order.len()
            invariant
                gs == sets_view(groups@),
                groups_ok(gs, order@, n as nat),
                forall|g: int| 0 <= g < groups@.len() ==> (#[trigger] groups@[g]).wf() && groups@[g]@.len() == n,
                j <= order@.len(),
                caps@ == caps_of(gs, order@).take(j as int),
                num_tiles == psum(caps_of(gs, order@), j as int),
            decreases order.len() - j,
        {
            let c = groups[order[j]].count_ones();
            proof {
                lemma_caps_psum(gs, order@, n as nat, j + 1);
                assert(psum(caps_of(gs, order@), j + 1) == psum(caps_of(gs, order@), j as int) + caps_of(gs, order@)[j as int]);
            }
            caps.push(c);
            num_tiles = num_tiles + c;
            assert(caps@ =~= caps_of(gs, order@).take(j + 1));
            j = j + 1;
        }
        proof {
            assert(caps@ =~= caps_of(gs, order@));
            lemma_caps_psum(gs, order@, n as nat, order@.len() as int);
        }
        if num > num_tiles {
            return CombinationsIter {
                groups,
                order,
                caps,
                len: n,
                next: None,
                group_set: Ghost(group_set@),
                num: Ghost(num as nat),
            };
        }
        let mut kv: Vec<usize> = Vec::new();
        let mut k: usize = 0;
        while k < order.len()
            invariant
                k <= order@.len(),
                kv@.len() == k,
                forall|i: int| 0 <= i < k ==> #[trigger] kv@[i] == 0,
            decreases order.len() - k,
        {
            kv.push(0);
            k = k + 1;
        }
        fill_front(&caps, &mut kv, num, Ghost(caps@.len() as int));
        proof {
            lemma_greedy_valid(caps@, num as nat);
            assert(kv@ =~= greedy(caps@, num as nat));
        }
        CombinationsIter {
            groups,
            order,
            caps,
            len: n,
            next: Some(kv),
            group_set: Ghost(group_set@),
            num: Ghost(num as nat),
        }
    }

    /// The current combination, moving on to the next one.
    pub fn next(&mut self) -> (r: Option<BitSet>)
        requires
            old(self).inv(),
        ensures
            final(self).inv(),
            final(self).spec_groups() == old(self).spec_groups(),
            final(self).spec_group_set() == old(self).spec_group_set(),
            final(self).spec_num() == old(self).spec_num(),
            final(self).spec_len() == old(self).spec_len(),
            final(self).spec_caps() == old(self).spec_caps(),
            match old(self).state() {
                None => r is None && final(self).state() is None,
                Some(kv) => {
                    &&& r matches Some(b) && b.wf() && b@ == canon(
                        old(self).spec_groups(),
                        ones_of(old(self).spec_group_set()),
                        kv,
                        old(self).spec_len(),
                    )
                    &&& match final(self).state() {
                        Some(nk) => {
                            &&& valid(nk, old(self).spec_caps(), old(self).spec_num())
                            &&& lex_lt(kv, nk)
                            &&& forall|v: Seq<usize>| #[trigger] valid(v, old(self).spec_caps(), old(self).spec_num())
                                ==> !(lex_lt(kv, v) && lex_lt(v, nk))
                        },
                        None => forall|v: Seq<usize>| #[trigger] valid(v, old(self).spec_caps(), old(self).spec_num())
                            ==> !lex_lt(kv, v),
                    }
                },
            },
    {
        match self.next.take() {
            None => None,
            Some(kv) => {
                proof {
                    assert forall|g: int| 0 <= g < self.groups@.len() implies (#[trigger] self.groups@[g]).wf()
                        && self.groups@[g]@.len() == self.len by {
                        assert(sets_view(self.groups@)[g] == self.groups@[g]@);
                    }
                }
                let out = materialize(self.groups, &self.order, &kv, self.len);
                let nk = next_combination(&self.caps, kv);
                self.next = nk;
                Some(out)
            },
        }
    }
}


/// No count vector for the same total comes before the greedy one.
proof fn lemma_greedy_lexmin(caps: Seq<usize>, num: nat, v: Seq<usize>)
    requires
        valid(v, caps, num),
        num <= total(caps),
    ensures
        !lex_lt(v, greedy(caps, num)),
{
    if lex_lt(v, greedy(caps, num)) {
        let b = choose|b: int| 0 <= b < v.len() && v[b] < greedy(caps, num)[b]
            && forall|i: int| b < i < v.len() ==> v[i] == greedy(caps, num)[i];
        lemma_greedy_min(caps, num, v, caps.len() as int, b);
    }
}

/// The count vectors `kvs` are those for `num` mines on groups of sizes `caps`, each once, in
/// increasing order.
pub open spec fn sorted_valid(kvs: Seq<Seq<usize>>, caps: Seq<usize>, num: nat) -> bool {
    &&& forall|k: int| 0 <= k < kvs.len() ==> valid(#[trigger] kvs[k], caps, num)
    &&& forall|a: int, b: int| 0 <= a < b < kvs.len() ==> lex_lt(#[trigger] kvs[a], #[trigger] kvs[b])
    &&& forall|v: Seq<usize>| #[trigger] valid(v, caps, num) ==> kvs.contains(v)
}

/// The combinations of `num` mines on the groups of `group_set`, in the increasing order of
/// their count vectors (the order a `CombinationsIter` gives them in).
pub open spec fn combination_list(gs: Seq<Seq<bool>>, group_set: Seq<bool>, num: nat) -> Seq<Seq<bool>> {
    let order = ones_of(group_set);
    let kvs = choose|kvs: Seq<Seq<usize>>| sorted_valid(kvs, caps_of(gs, order), num);
    Seq::new(kvs.len(), |k: int| canon(gs, order, kvs[k], group_set.len()))
}

/// Two strictly increasing lists of vectors of one length with the same elements are equal.
proof fn lemma_sorted_same(x: Seq<Seq<usize>>, y: Seq<Seq<usize>>, len: nat)
    requires
        forall|k: int| 0 <= k < x.len() ==> (#[trigger] x[k]).len() == len,
        forall|k: int| 0 <= k < y.len() ==> (#[trigger] y[k]).len() == len,
        forall|a: int, b: int| 0 <= a < b < x.len() ==> lex_lt(#[trigger] x[a], #[trigger] x[b]),
        forall|a: int, b: int| 0 <= a < b < y.len() ==> lex_lt(#[trigger] y[a], #[trigger] y[b]),
        forall|v: Seq<usize>| x.contains(v) <==> y.contains(v),
    ensures
        x == y,
    decreases x.len(),
{
    if x.len() == 0 {
        if y.len() > 0 {
            assert(y.contains(y[0]));
        }
        assert(x =~= y);
    } else {
        assert(x.contains(x[0]));
        assert(y.contains(x[0]));
        assert(y.contains(y[0]));
        assert(x.contains(y[0]));
        let j = choose|j: int| 0 <= j < y.len() && y[j] == x[0];
        let i = choose|i: int| 0 <= i < x.len() && x[i] == y[0];
        if x[0] != y[0] {
            assert(j > 0);
            assert(i > 0);
            assert(lex_lt(y[0], y[j]));
            assert(lex_lt(x[0], x[i]));
            lemma_lex_asym(x[0], y[0]);
        }
        let xr = x.drop_first();
        let yr = y.drop_first();
        assert forall|v: Seq<usize>| xr.contains(v) <==> yr.contains(v) by {
            if xr.contains(v) {
                let k = choose|k: int| 0 <= k < xr.len() && xr[k] == v;
                assert(x[k + 1] == v);
                assert(x.contains(v));
                assert(lex_lt(x[0], x[k + 1]));
                lemma_lex_asym(x[0], x[k + 1]);
                let m = choose|m: int| 0 <= m < y.len() && y[m] == v;
                assert(m != 0);
                assert(yr[m - 1] == v);
            }
            if yr.contains(v) {
                let k = choose|k: int| 0 <= k < yr.len() && yr[k] == v;
                assert(y[k + 1] == v);
                assert(y.contains(v));
                assert(lex_lt(y[0], y[k + 1]));
                lemma_lex_asym(y[0], y[k + 1]);
                let m = choose|m: int| 0 <= m < x.len() && x[m] == v;
                assert(m != 0);
                assert(xr[m - 1] == v);
            }
        }
        assert forall|a: int, b: int| 0 <= a < b < xr.len() implies lex_lt(#[trigger] xr[a], #[trigger] xr[b]) by {
            assert(lex_lt(x[a + 1], x[b + 1]));
        }
        assert forall|a: int, b: int| 0 <= a < b < yr.len() implies lex_lt(#[trigger] yr[a], #[trigger] yr[b]) by {
            assert(lex_lt(y[a + 1], y[b + 1]));
        }
        lemma_sorted_same(xr, yr, len);
        assert(x =~= seq![x[0]] + xr);
        assert(y =~= seq![y[0]] + yr);
    }
}

/// The sorted list of count vectors is the one there is.
pub proof fn lemma_sorted_valid_unique(x: Seq<Seq<usize>>, y: Seq<Seq<usize>>, caps: Seq<usize>, num: nat)
    requires
        sorted_valid(x, caps, num),
        sorted_valid(y, caps, num),
    ensures
        x == y,
{
    assert forall|v: Seq<usize>| x.contains(v) <==> y.contains(v) by {
        if x.contains(v) {
            let k = choose|k: int| 0 <= k < x.len() && x[k] == v;
            assert(valid(x[k], caps, num));
        }
        if y.contains(v) {
            let k = choose|k: int| 0 <= k < y.len() && y[k] == v;
            assert(valid(y[k], caps, num));
        }
    }
    assert forall|k: int| 0 <= k < x.len() implies (#[trigger] x[k]).len() == caps.len() by {
        assert(valid(x[k], caps, num));
    }
    assert forall|k: int| 0 <= k < y.len() implies (#[trigger] y[k]).len() == caps.len() by {
        assert(valid(y[k], caps, num));
    }
    lemma_sorted_same(x, y, caps.len());
}

/// Every combination of `num` mines on the groups of `group_set`, each once (what collecting
/// a `CombinationsIter` gives), in the order of their count vectors.
pub fn combinations(groups: &Vec<BitSet>, group_set: &BitSet, num: usize) -> (r: Vec<BitSet>)
    requires
        group_set.wf(),
        len_fits(group_set@.len()),
        disjoint_groups(sets_view(groups@)),
        forall|g: int| 0 <= g < groups@.len() ==> (#[trigger] groups@[g]).wf() && groups@[g]@.len() == group_set@.len(),
        forall|g: int| 0 <= g < group_set@.len() && #[trigger] group_set@[g] ==> g < groups@.len(),
    ensures
        forall|k: int| 0 <= k < r@.len() ==> (#[trigger] r@[k]).wf() && r@[k]@.len() == group_set@.len()
            && is_combination(r@[k]@, sets_view(groups@), group_set@, num as nat),
        forall|s: Seq<bool>| #[trigger] is_combination(s, sets_view(groups@), group_set@, num as nat)
            ==> exists|k: int| 0 <= k < r@.len() && r@[k]@ == s,
        forall|a: int, b: int| 0 <= a < b < r@.len() ==> r@[a]@ != r@[b]@,
        sets_view(r@) == combination_list(sets_view(groups@), group_set@, num as nat),
{
    let ghost gs = sets_view(groups@);
    let ghost order = ones_of(group_set@);
    let ghost n = group_set@.len();
    let ghost nm = num as nat;
    let mut it = CombinationsIter::new(groups, group_set, num);
    let ghost caps = it.spec_caps();
    let mut out: Vec<BitSet> = Vec::new();
    let ghost mut kvs: Seq<Seq<usize>> = Seq::empty();
    let mut done = false;
    proof {
        if num <= total(caps) {
            assert forall|v: Seq<usize>| #[trigger] valid(v, caps, nm) implies !lex_lt(v, greedy(caps, nm)) by {
                lemma_greedy_lexmin(caps, nm, v);
            }
            lemma_greedy_valid(caps, nm);
        } else {
            assert forall|v: Seq<usize>| #[trigger] valid(v, caps, nm) implies exists|k: int| 0 <= k < kvs.len() && kvs[k] == v by {
                lemma_total_le_caps(v, caps);
            }
        }
    }
    while !done
        invariant
            it.inv(),
            it.spec_groups() == gs,
            it.spec_group_set() == group_set@,
            it.spec_num() == nm,
            it.spec_len() == n,
            it.spec_caps() == caps,
            caps == caps_of(gs, order),
            gs == sets_view(groups@),
            order == ones_of(group_set@),
            n == group_set@.len(),
            groups_ok(gs, order, n),
            done ==> it.state() is None,
            kvs.len() == out@.len(),
            forall|k: int| 0 <= k < out@.len() ==> (#[trigger] out@[k]).wf() && out@[k]@ == canon(gs, order, kvs[k], n),
            forall|k: int| 0 <= k < kvs.len() ==> valid(#[trigger] kvs[k], caps, nm),
            forall|a: int, b: int| 0 <= a < b < kvs.len() ==> kvs[a] != kvs[b],
            forall|a: int, b: int| 0 <= a < b < kvs.len() ==> lex_lt(#[trigger] kvs[a], #[trigger] kvs[b]),
            match it.state() {
                Some(cur) => {
                    &&& valid(cur, caps, nm)
                    &&& forall|k: int| 0 <= k < kvs.len() ==> lex_lt(#[trigger] kvs[k], cur)
                    &&& forall|v: Seq<usize>| #[trigger] valid(v, caps, nm) && lex_lt(v, cur)
                        ==> exists|k: int| 0 <= k < kvs.len() && kvs[k] == v
                },
                None => forall|v: Seq<usize>| #[trigger] valid(v, caps, nm)
                    ==> exists|k: int| 0 <= k < kvs.len() && kvs[k] == v,
            },
        decreases (if done { 0int } else { 1int }) + match it.state() {
            Some(cur) => radix(caps) - rank(cur, caps) + 1,
            None => 0int,
        },
    {
        let ghost st = it.state();
        let ghost kvs0 = kvs;
        proof {
            if let Some(cur) = st {
                lemma_rank_bound(cur, caps);
            }
        }
        let item = it.next();
        match item {
            Some(b) => {
                out.push(b);
                proof {
                    let cur = st->0;
                    kvs = kvs.push(cur);
                    assert forall|k: int| 0 <= k < kvs0.len() implies kvs0[k] != cur by {
                        lemma_lex_asym(kvs0[k], cur);
                    }
                    match it.state() {
                        Some(nk) => {
                            lemma_rank_mono(cur, nk, caps);
                            lemma_rank_bound(nk, caps);
                            assert forall|k: int| 0 <= k < kvs.len() implies lex_lt(#[trigger] kvs[k], nk) by {
                                if k < kvs0.len() {
                                    lemma_lex_trans(kvs0[k], cur, nk);
                                }
                            }
                            assert forall|v: Seq<usize>| #[trigger] valid(v, caps, nm) && lex_lt(v, nk)
                                implies exists|k: int| 0 <= k < kvs.len() && kvs[k] == v by {
                                if v == cur {
                                    assert(kvs[kvs0.len() as int] == v);
                                } else {
                                    lemma_lex_total(v, cur);
                                    if lex_lt(v, cur) {
                                        let k = choose|k: int| 0 <= k < kvs0.len() && kvs0[k] == v;
                                        assert(kvs[k] == v);
                                    }
                                }
                            }
                        },
                        None => {
                            assert forall|v: Seq<usize>| #[trigger] valid(v, caps, nm)
                                implies exists|k: int| 0 <= k < kvs.len() && kvs[k] == v by {
                                if v == cur {
                                    assert(kvs[kvs0.len() as int] == v);
                                } else {
                                    lemma_lex_total(v, cur);
                                    let k = choose|k: int| 0 <= k < kvs0.len() && kvs0[k] == v;
                                    assert(kvs[k] == v);
                                }
                            }
                        },
                    }
                }
            },
            None => {
                done = true;
            },
        }
    }
    proof {
        assert forall|k: int| 0 <= k < out@.len() implies (#[trigger] out@[k]).wf() && out@[k]@.len() == n
            && is_combination(out@[k]@, gs, group_set@, nm) by {
            assert(valid(kvs[k], caps, nm));
        }
        assert forall|s: Seq<bool>| #[trigger] is_combination(s, gs, group_set@, nm)
            implies exists|k: int| 0 <= k < out@.len() && out@[k]@ == s by {
            let kv = choose|kv: Seq<usize>| valid(kv, caps_of(gs, ones_of(group_set@)), nm) && s == #[trigger] canon(
                gs,
                ones_of(group_set@),
                kv,
                group_set@.len(),
            );
            let k = choose|k: int| 0 <= k < kvs.len() && kvs[k] == kv;
            assert(out@[k]@ == s);
        }
        assert forall|a: int, b: int| 0 <= a < b < out@.len() implies out@[a]@ != out@[b]@ by {
            lemma_canon_injective(gs, order, kvs[a], kvs[b], n);
        }
        assert(sorted_valid(kvs, caps, nm));
        let kvs2 = choose|kvs2: Seq<Seq<usize>>| sorted_valid(kvs2, caps_of(gs, order), nm);
        lemma_sorted_valid_unique(kvs2, kvs, caps, nm);
        assert(sets_view(out@) =~= combination_list(gs, group_set@, nm)) by {
            assert forall|k: int| 0 <= k < out@.len() implies sets_view(out@)[k] == canon(gs, order, kvs[k], n) by {}
        }
    }
    out
}

} // verus!
