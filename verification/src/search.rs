use vstd::prelude::*;
use crate::bitset::BitSet;
use crate::counting::BigNat;
use crate::arrangements::MineArrangements;
use crate::solution_counting::sum_values;
use crate::board::{
    Board, Tile, symmetric_graph, degrees_fit, counters_consistent, tile_count, is_kind, asserted_grid, cleared_grid,
    shifted, law_consistent_ops_fit, law_assert_keeps_counters, law_clear_keeps_counters, lemma_shift_kind, signed_count,
    occ, lemma_tile_count_same_kinds,
};
use crate::game::{Game, InternalGame, mine_count, lemma_mine_count_le};
use crate::graph::{Graph, same_graph_as};
use crate::solver::{Solver, potential, lemma_potential_update, lemma_potential_shifted};

verus! {

// ---------------------------------------------------------------------------------------------
// Maxima

/// The values of the placement counts of a node's children.
pub open spec fn tss_values(c: Seq<(BigNat, usize)>) -> Seq<nat> {
    Seq::new(c.len(), |i: int| c[i].0@)
}

/// The largest of the numbers (0 for none).
pub open spec fn seq_max(v: Seq<nat>) -> nat
    decreases v.len(),
{
    if v.len() == 0 {
        0
    } else if seq_max(v.drop_last()) < v.last() {
        v.last()
    } else {
        seq_max(v.drop_last())
    }
}

/// The position of the largest number, the last one of several equal largest.
pub open spec fn last_max_index(v: Seq<nat>) -> int
    decreases v.len(),
{
    if v.len() <= 1 {
        0
    } else if v[last_max_index(v.drop_last())] <= v.last() {
        v.len() - 1
    } else {
        last_max_index(v.drop_last())
    }
}

/// `(a1, a2)` comes no later than `(b1, b2)` in the order by first, then second entry.
pub open spec fn lex_le(a: (nat, nat), b: (nat, nat)) -> bool {
    a.0 < b.0 || (a.0 == b.0 && a.1 <= b.1)
}

/// The position of the largest pair in the order by first, then second entry, the last one
/// of several equal largest.
pub open spec fn last_lex_max_index(v: Seq<(nat, nat)>) -> int
    decreases v.len(),
{
    if v.len() <= 1 {
        0
    } else if lex_le(v[last_lex_max_index(v.drop_last())], v.last()) {
        v.len() - 1
    } else {
        last_lex_max_index(v.drop_last())
    }
}

/// The tile a round of the search tries first from a position whose children have the given
/// visits and counts: the last of the tiles with the largest count.
pub open spec fn search_choice(v: Seq<(nat, nat)>) -> int {
    last_max_index(Seq::new(v.len(), |j: int| v[j].1))
}

/// Each child's visits, with its number of placements in which its tile is safe.
pub open spec fn visit_keys(c: Seq<(BigNat, usize)>) -> Seq<(nat, nat)> {
    Seq::new(c.len(), |i: int| (c[i].1 as nat, c[i].0@))
}

proof fn lemma_last_max_index(v: Seq<nat>)
    requires
        v.len() > 0,
    ensures
        0 <= last_max_index(v) < v.len(),
    decreases v.len(),
{
    if v.len() > 1 {
        lemma_last_max_index(v.drop_last());
    }
}

proof fn lemma_last_lex_max_index(v: Seq<(nat, nat)>)
    requires
        v.len() > 0,
    ensures
        0 <= last_lex_max_index(v) < v.len(),
    decreases v.len(),
{
    if v.len() > 1 {
        lemma_last_lex_max_index(v.drop_last());
    }
}

proof fn lemma_last_max_top(v: Seq<nat>)
    requires
        v.len() > 0,
    ensures
        forall|t: int| 0 <= t < v.len() ==> #[trigger] v[t] <= v[last_max_index(v)],
    decreases v.len(),
{
    lemma_last_max_index(v);
    if v.len() > 1 {
        let w = v.drop_last();
        lemma_last_max_top(w);
        lemma_last_max_index(w);
        assert(w[last_max_index(w)] == v[last_max_index(w)]);
        assert forall|t: int| 0 <= t < v.len() implies #[trigger] v[t] <= v[last_max_index(v)] by {
            if t < v.len() - 1 {
                assert(v[t] == w[t]);
            }
        }
    }
}

proof fn lemma_last_lex_max_top(v: Seq<(nat, nat)>)
    requires
        v.len() > 0,
    ensures
        forall|t: int| 0 <= t < v.len() ==> #[trigger] v[t].0 <= v[last_lex_max_index(v)].0,
    decreases v.len(),
{
    lemma_last_lex_max_index(v);
    if v.len() > 1 {
        let w = v.drop_last();
        lemma_last_lex_max_top(w);
        lemma_last_lex_max_index(w);
        assert(w[last_lex_max_index(w)] == v[last_lex_max_index(w)]);
        assert forall|t: int| 0 <= t < v.len() implies #[trigger] v[t].0 <= v[last_lex_max_index(v)].0 by {
            if t < v.len() - 1 {
                assert(v[t] == w[t]);
            }
        }
    }
}

proof fn lemma_seq_max(v: Seq<nat>)
    ensures
        forall|j: int| 0 <= j < v.len() ==> #[trigger] v[j] <= seq_max(v),
        v.len() > 0 ==> exists|j: int| 0 <= j < v.len() && v[j] == seq_max(v),
    decreases v.len(),
{
    if v.len() > 0 {
        let p = v.drop_last();
        lemma_seq_max(p);
        assert forall|j: int| 0 <= j < v.len() implies #[trigger] v[j] <= seq_max(v) by {
            if j < p.len() {
                assert(v[j] == p[j]);
            }
        }
        if seq_max(p) < v.last() || p.len() == 0 {
            assert(v[v.len() - 1] == seq_max(v));
        } else {
            let j = choose|j: int| 0 <= j < p.len() && p[j] == seq_max(p);
            assert(v[j] == p[j]);
        }
    }
}

/// The largest placement count of the children.
fn max_tss(children: &Vec<(BigNat, usize)>) -> (r: BigNat)
    ensures
        r@ == seq_max(tss_values(children@)),
{
    let ghost v = tss_values(children@);
    let mut best = BigNat::zero();
    let mut i: usize = 0;
    while i < children.len()
        invariant
            v == tss_values(children@),
            i <= children@.len(),
            best@ == seq_max(v.take(i as int)),
        decreases children.len() - i,
    {
        proof {
            assert(v.take(i + 1).drop_last() == v.take(i as int));
            assert(v.take(i + 1).last() == v[i as int]);
        }
        if !children[i].0.le(&best) {
            best = children[i].0.clone();
        }
        i = i + 1;
    }
    assert(v.take(children@.len() as int) == v);
    best
}

// ---------------------------------------------------------------------------------------------
// Nodes

/// What the search knows of one position: the number of placements of the remaining mines,
/// the largest number of them in which one tile is safe, for each tile that number (as the
/// search has lowered it) with the times the tile was tried, and the positions reached from
/// this one by the tiles tried.
struct Node {
    total_solutions: BigNat,
    safe_solutions: BigNat,
    children: Vec<(BigNat, usize)>,
    parents: Vec<(usize, BitSet)>,
    in_tree: bool,
}

/// The node has one child per tile and each parent entry names a node of the list, with a
/// set of tiles of the board's length.
spec fn node_wf(node: Node, n: nat, num_nodes: nat) -> bool {
    &&& node.children@.len() == n
    &&& forall|q: int|
        0 <= q < node.parents@.len() ==> (#[trigger] node.parents@[q]).0 < num_nodes && node.parents@[q].1.wf()
            && node.parents@[q].1@.len() == n
}

/// Every node of the list is well formed.
spec fn nodes_wf(nodes: Seq<Node>, n: nat) -> bool {
    forall|i: int| 0 <= i < nodes.len() ==> node_wf(#[trigger] nodes[i], n, nodes.len())
}

/// The sum of the nodes' safe counts; every step of the back-propagation lowers it.
spec fn safe_total(nodes: Seq<Node>) -> nat
    decreases nodes.len(),
{
    if nodes.len() == 0 {
        0
    } else {
        safe_total(nodes.drop_last()) + nodes.last().safe_solutions@
    }
}

proof fn lemma_safe_total_update(nodes: Seq<Node>, i: int, x: Node)
    requires
        0 <= i < nodes.len(),
    ensures
        safe_total(nodes.update(i, x)) + nodes[i].safe_solutions@ == safe_total(nodes) + x.safe_solutions@,
    decreases nodes.len(),
{
    let u = nodes.update(i, x);
    if i == nodes.len() - 1 {
        assert(u.drop_last() == nodes.drop_last());
    } else {
        assert(u.drop_last() == nodes.drop_last().update(i, x));
        lemma_safe_total_update(nodes.drop_last(), i, x);
    }
}

impl Node {
    /// A node for the position whose placements `arrangements` describes: every tile's count of
    /// placements in which it is safe, none tried yet, and the largest of them.
    fn new(arrangements: &MineArrangements) -> (r: Self)
        requires
            arrangements.wf(),
            arrangements.counts_ok(),
        ensures
            r.total_solutions@ == sum_values(arrangements.spec_solution_counts()),
            r.children@.len() == arrangements.spec_num_tiles(),
            forall|t: int| 0 <= t < r.children@.len() ==> #[trigger] r.children@[t].0@
                == arrangements.spec_tile_safe_solutions()[t] && r.children@[t].1 == 0,
            r.safe_solutions@ == seq_max(tss_values(r.children@)),
            r.parents@.len() == 0,
            r.in_tree,
    {
        let tile_safe = arrangements.tile_safe_solutions();
        let total_solutions = arrangements.total_solutions();
        let mut children: Vec<(BigNat, usize)> = Vec::new();
        let mut i: usize = 0;
        while i < tile_safe.len()
            invariant
                i <= tile_safe@.len(),
                children@.len() == i,
                forall|t: int| 0 <= t < i ==> #[trigger] children@[t].0@ == tile_safe@[t]@ && children@[t].1 == 0,
            decreases tile_safe.len() - i,
        {
            children.push((tile_safe[i].clone(), 0));
            i = i + 1;
        }
        let safe_solutions = max_tss(&children);
        Node { total_solutions, safe_solutions, children, parents: Vec::new(), in_tree: true }
    }

    /// Sets the safe count to the largest child count and returns by how much it fell; `None`,
    /// with nothing changed, when that count is larger than the safe count.
    fn update(&mut self) -> (r: Option<BigNat>)
        ensures
            seq_max(tss_values(old(self).children@)) <= old(self).safe_solutions@ ==> {
                &&& r is Some
                &&& r->0@ == old(self).safe_solutions@ - seq_max(tss_values(old(self).children@))
                &&& final(self).safe_solutions@ == seq_max(tss_values(old(self).children@))
            },
            seq_max(tss_values(old(self).children@)) > old(self).safe_solutions@ ==> r is None
                && final(self).safe_solutions == old(self).safe_solutions,
            final(self).children == old(self).children,
            final(self).parents == old(self).parents,
            final(self).total_solutions == old(self).total_solutions,
            final(self).in_tree == old(self).in_tree,
    {
        let new_safe = max_tss(&self.children);
        if !new_safe.le(&self.safe_solutions) {
            return None;
        }
        let loss = self.safe_solutions.sub(&new_safe);
        self.safe_solutions = new_safe;
        Some(loss)
    }

    /// The tile to try next: the last of the tiles with the largest count, when that count is
    /// not zero.
    fn move_to_search(&self) -> (r: Option<usize>)
        ensures
            match r {
                Some(i) => self.children@.len() > 0 && i == last_max_index(tss_values(self.children@))
                    && tss_values(self.children@)[i as int] > 0,
                None => self.children@.len() == 0 || tss_values(self.children@)[last_max_index(
                    tss_values(self.children@),
                )] == 0,
            },
    {
        if self.children.len() == 0 {
            return None;
        }
        let ghost v = tss_values(self.children@);
        let mut best: usize = 0;
        let mut i: usize = 1;
        while i < self.children.len()
            invariant
                v == tss_values(self.children@),
                1 <= i <= self.children@.len(),
                best == last_max_index(v.take(i as int)),
                best < i,
            decreases self.children.len() - i,
        {
            proof {
                assert(v.take(i + 1).drop_last() == v.take(i as int));
                assert(v.take(i + 1).last() == v[i as int]);
                assert(v.take(i as int)[best as int] == v[best as int]);
            }
            if self.children[best].0.le(&self.children[i].0) {
                best = i;
            }
            i = i + 1;
        }
        assert(v.take(self.children@.len() as int) == v);
        let zero = BigNat::zero();
        if self.children[best].0.le(&zero) {
            None
        } else {
            Some(best)
        }
    }

    /// The tile tried most often, ties going to the larger count, then to the later tile.
    fn best_move(&self) -> (r: usize)
        requires
            self.children@.len() > 0,
        ensures
            r == last_lex_max_index(visit_keys(self.children@)),
    {
        let ghost v = visit_keys(self.children@);
        let mut best: usize = 0;
        let mut i: usize = 1;
        while i < self.children.len()
            invariant
                v == visit_keys(self.children@),
                1 <= i <= self.children@.len(),
                best == last_lex_max_index(v.take(i as int)),
                best < i,
            decreases self.children.len() - i,
        {
            proof {
                assert(v.take(i + 1).drop_last() == v.take(i as int));
                assert(v.take(i + 1).last() == v[i as int]);
                assert(v.take(i as int)[best as int] == v[best as int]);
            }
            let vb = self.children[best].1;
            let vi = self.children[i].1;
            if vb < vi || (vb == vi && self.children[best].0.le(&self.children[i].0)) {
                best = i;
            }
            i = i + 1;
        }
        assert(v.take(self.children@.len() as int) == v);
        best
    }
}

/// A copy of a node's parent entries.
fn copy_parents(parents: &Vec<(usize, BitSet)>) -> (r: Vec<(usize, BitSet)>)
    requires
        forall|q: int| 0 <= q < parents@.len() ==> (#[trigger] parents@[q]).1.wf(),
    ensures
        r@.len() == parents@.len(),
        forall|q: int| 0 <= q < r@.len() ==> (#[trigger] r@[q]).0 == parents@[q].0 && r@[q].1.wf() && r@[q].1@
            == parents@[q].1@,
{
    let mut out: Vec<(usize, BitSet)> = Vec::new();
    let mut q: usize = 0;
    while q < parents.len()
        invariant
            q <= parents@.len(),
            forall|m: int| 0 <= m < parents@.len() ==> (#[trigger] parents@[m]).1.wf(),
            out@.len() == q,
            forall|m: int| 0 <= m < q ==> (#[trigger] out@[m]).0 == parents@[m].0 && out@[m].1.wf() && out@[m].1@
                == parents@[m].1@,
        decreases parents.len() - q,
    {
        out.push((parents[q].0, parents[q].1.clone()));
        q = q + 1;
    }
    out
}

/// The nodes have the same parents, totals and membership, and children lists of the same
/// lengths.
spec fn same_shape(a: Seq<Node>, b: Seq<Node>) -> bool {
    &&& a.len() == b.len()
    &&& forall|i: int|
        0 <= i < a.len() ==> (#[trigger] a[i]).children@.len() == b[i].children@.len() && a[i].parents == b[i].parents
            && a[i].total_solutions == b[i].total_solutions && a[i].in_tree == b[i].in_tree
}

/// Every child visit count of `a` stands unchanged in `b`.
spec fn visits_same(a: Seq<Node>, b: Seq<Node>) -> bool {
    &&& a.len() == b.len()
    &&& forall|i: int| 0 <= i < a.len() ==> (#[trigger] b[i]).children@.len() == a[i].children@.len()
    &&& forall|i: int, j: int|
        #![trigger b[i].children@[j]]
        0 <= i < a.len() && 0 <= j < a[i].children@.len() ==> b[i].children@[j].1 == a[i].children@[j].1
}

/// Node `i` has the same child visit counts in `a` and `b`.
spec fn visits_at_same(a: Seq<Node>, b: Seq<Node>, i: int) -> bool {
    &&& 0 <= i < a.len()
    &&& i < b.len()
    &&& b[i].children@.len() == a[i].children@.len()
    &&& forall|j: int| 0 <= j < a[i].children@.len() ==> #[trigger] b[i].children@[j].1 == a[i].children@[j].1
}

proof fn lemma_visits_at_same_then(m: Seq<Node>, a: Seq<Node>, b: Seq<Node>, i: int)
    requires
        visits_at_same(m, a, i),
        visits_same(a, b),
    ensures
        visits_at_same(m, b, i),
{
    assert forall|j: int| 0 <= j < m[i].children@.len() implies #[trigger] b[i].children@[j].1 == m[i].children@[j].1 by {
        assert(a[i].children@[j].1 == m[i].children@[j].1);
        assert(b[i].children@[j].1 == a[i].children@[j].1);
    }
}

/// Node `i`'s counts of safe placements in `b` are at most those in `a`.
spec fn counts_at_lowered(a: Seq<Node>, b: Seq<Node>, i: int) -> bool {
    &&& 0 <= i < a.len()
    &&& i < b.len()
    &&& b[i].children@.len() == a[i].children@.len()
    &&& forall|j: int| 0 <= j < a[i].children@.len() ==> #[trigger] b[i].children@[j].0@ <= a[i].children@[j].0@
}

proof fn lemma_counts_at_then(m: Seq<Node>, a: Seq<Node>, b: Seq<Node>, i: int)
    requires
        counts_at_lowered(m, a, i),
        counts_lowered(a, b),
        visits_same(a, b),
    ensures
        counts_at_lowered(m, b, i),
{
    assert forall|j: int| 0 <= j < m[i].children@.len() implies #[trigger] b[i].children@[j].0@ <= m[i].children@[j].0@ by {
        assert(a[i].children@[j].0@ <= m[i].children@[j].0@);
        assert(b[i].children@[j].0@ <= a[i].children@[j].0@);
    }
}

/// Every child visit count of `a` stands in `b`, as large or larger.
spec fn visits_kept(a: Seq<Node>, b: Seq<Node>) -> bool {
    &&& a.len() <= b.len()
    &&& forall|i: int| 0 <= i < a.len() ==> (#[trigger] b[i]).children@.len() == a[i].children@.len()
    &&& forall|i: int, j: int|
        #![trigger b[i].children@[j]]
        0 <= i < a.len() && 0 <= j < a[i].children@.len() ==> b[i].children@[j].1 >= a[i].children@[j].1
}

proof fn lemma_visits_trans(a: Seq<Node>, b: Seq<Node>, c: Seq<Node>)
    requires
        visits_kept(a, b),
        visits_kept(b, c),
    ensures
        visits_kept(a, c),
{
    assert forall|i: int| 0 <= i < a.len() implies (#[trigger] c[i]).children@.len() == a[i].children@.len() by {
        assert(b[i].children@.len() == a[i].children@.len());
    }
    assert forall|i: int, j: int|
        #![trigger c[i].children@[j]]
        0 <= i < a.len() && 0 <= j < a[i].children@.len() implies c[i].children@[j].1 >= a[i].children@[j].1 by {
        assert(b[i].children@.len() == a[i].children@.len());
        assert(b[i].children@[j].1 >= a[i].children@[j].1);
        assert(c[i].children@[j].1 >= b[i].children@[j].1);
    }
}

proof fn lemma_visits_same_trans(a: Seq<Node>, b: Seq<Node>, c: Seq<Node>)
    requires
        visits_same(a, b),
        visits_same(b, c),
    ensures
        visits_same(a, c),
{
    assert forall|i: int| 0 <= i < a.len() implies (#[trigger] c[i]).children@.len() == a[i].children@.len() by {
        assert(b[i].children@.len() == a[i].children@.len());
    }
    assert forall|i: int, j: int|
        #![trigger c[i].children@[j]]
        0 <= i < a.len() && 0 <= j < a[i].children@.len() implies c[i].children@[j].1 == a[i].children@[j].1 by {
        assert(b[i].children@.len() == a[i].children@.len());
        assert(b[i].children@[j].1 == a[i].children@[j].1);
        assert(c[i].children@[j].1 == b[i].children@[j].1);
    }
}

/// Changing nodes without touching their children keeps every visit count.
proof fn lemma_children_kept(a: Seq<Node>, b: Seq<Node>)
    requires
        a.len() == b.len(),
        forall|i: int| 0 <= i < a.len() ==> (#[trigger] b[i]).children == a[i].children,
    ensures
        visits_same(a, b),
{
    assert forall|i: int, j: int|
        #![trigger b[i].children@[j]]
        0 <= i < a.len() && 0 <= j < a[i].children@.len() implies b[i].children@[j].1 == a[i].children@[j].1 by {
        assert(b[i].children == a[i].children);
    }
}

proof fn lemma_same_is_kept(a: Seq<Node>, b: Seq<Node>)
    requires
        visits_same(a, b),
    ensures
        visits_kept(a, b),
{
    assert forall|i: int, j: int|
        #![trigger b[i].children@[j]]
        0 <= i < a.len() && 0 <= j < a[i].children@.len() implies b[i].children@[j].1 >= a[i].children@[j].1 by {
        assert(b[i].children@[j].1 == a[i].children@[j].1);
    }
}

proof fn lemma_same_shape_wf(a: Seq<Node>, b: Seq<Node>, n: nat)
    requires
        same_shape(a, b),
        nodes_wf(a, n),
    ensures
        nodes_wf(b, n),
{
    assert forall|i: int| 0 <= i < b.len() implies node_wf(#[trigger] b[i], n, b.len()) by {
        assert(node_wf(a[i], n, a.len()));
        assert(a[i].parents == b[i].parents);
    }
}

/// No count of `b` is above the same count of `a`: the safe counts and the children's counts
/// only fell.
spec fn counts_lowered(a: Seq<Node>, b: Seq<Node>) -> bool {
    &&& a.len() == b.len()
    &&& forall|i: int| 0 <= i < a.len() ==> (#[trigger] b[i]).safe_solutions@ <= a[i].safe_solutions@
    &&& forall|i: int, j: int|
        #![trigger b[i].children@[j]]
        0 <= i < a.len() && 0 <= j < a[i].children@.len() && j < b[i].children@.len() ==> b[i].children@[j].0@
            <= a[i].children@[j].0@
}

proof fn lemma_lowered_trans(a: Seq<Node>, b: Seq<Node>, c: Seq<Node>)
    requires
        counts_lowered(a, b),
        counts_lowered(b, c),
        same_shape(a, b),
    ensures
        counts_lowered(a, c),
{
    assert forall|i: int, j: int|
        #![trigger c[i].children@[j]]
        0 <= i < a.len() && 0 <= j < a[i].children@.len() && j < c[i].children@.len() implies c[i].children@[j].0@
        <= a[i].children@[j].0@ by {
        assert(b[i].children@[j].0@ <= a[i].children@[j].0@);
    }
    assert forall|i: int| 0 <= i < a.len() implies (#[trigger] c[i]).safe_solutions@ <= a[i].safe_solutions@ by {
        assert(b[i].safe_solutions@ <= a[i].safe_solutions@);
    }
}

/// Lowers the safe count of node `idx` to its largest child count and, when it fell, lowers
/// by as much the counts that its parents hold for the tiles leading to it, then does the same
/// for each parent. `None` when a count would become negative or a node is its own parent.
fn backpropogate(nodes: &mut Vec<Node>, idx: usize, Ghost(n): Ghost<nat>) -> (r: Option<()>)
    requires
        idx < old(nodes)@.len(),
        nodes_wf(old(nodes)@, n),
        n <= usize::MAX,
    ensures
        same_shape(old(nodes)@, final(nodes)@),
        nodes_wf(final(nodes)@, n),
        safe_total(final(nodes)@) <= safe_total(old(nodes)@),
        visits_same(old(nodes)@, final(nodes)@),
        counts_lowered(old(nodes)@, final(nodes)@),
        seq_max(tss_values(old(nodes)@[idx as int].children@)) > old(nodes)@[idx as int].safe_solutions@ ==> r is None
            && final(nodes)@ == old(nodes)@,
        seq_max(tss_values(old(nodes)@[idx as int].children@)) == old(nodes)@[idx as int].safe_solutions@ ==> r is Some
            && forall|i: int| 0 <= i < old(nodes)@.len() ==> (#[trigger] final(nodes)@[i]).children == old(nodes)@[i].children
                && final(nodes)@[i].safe_solutions@ == old(nodes)@[i].safe_solutions@,
        seq_max(tss_values(old(nodes)@[idx as int].children@)) < old(nodes)@[idx as int].safe_solutions@ ==> safe_total(
            final(nodes)@,
        ) < safe_total(old(nodes)@) && final(nodes)@[idx as int].safe_solutions@ <= seq_max(
            tss_values(old(nodes)@[idx as int].children@),
        ),
    decreases safe_total(old(nodes)@),
{
    let ghost start = nodes@;
    let loss = match nodes[idx].update() {
        Some(l) => l,
        None => {
            proof {
                assert(nodes@[idx as int] == start[idx as int]);
                assert(nodes@ =~= start);
            }
            return None;
        },
    };
    let ghost max0 = seq_max(tss_values(start[idx as int].children@));
    proof {
        lemma_safe_total_update(start, idx as int, nodes@[idx as int]);
        lemma_same_shape_wf(start, nodes@, n);
        assert forall|i: int| 0 <= i < start.len() implies (#[trigger] nodes@[i]).children == start[i].children
            && (i != idx ==> nodes@[i] == start[i]) by {
            if i != idx {
                assert(nodes@[i] == start[i]);
            }
        }
        assert(counts_lowered(start, nodes@));
        assert(nodes@[idx as int].safe_solutions@ == max0);
    }
    let zero = BigNat::zero();
    if loss.le(&zero) {
        return Some(());
    }
    let ghost after_update = nodes@;
    assert(node_wf(nodes@[idx as int], n, nodes@.len()));
    let parents = copy_parents(&nodes[idx].parents);
    let mut q: usize = 0;
    proof {
        assert(visits_same(start, nodes@)) by {
            assert forall|i: int, j: int| 0 <= i < start.len() && 0 <= j < start[i].children@.len() implies nodes@[i].children@[j].1 == start[i].children@[j].1 by {
                if i != idx {
                    assert(nodes@[i] == start[i]);
                }
            }
        }
    }
    while q < parents.len()
        invariant
            start == old(nodes)@,
            n <= usize::MAX,
            visits_same(start, nodes@),
            same_shape(start, nodes@),
            nodes_wf(nodes@, n),
            safe_total(nodes@) < safe_total(start),
            counts_lowered(start, nodes@),
            idx < nodes@.len(),
            max0 == seq_max(tss_values(start[idx as int].children@)),
            max0 < start[idx as int].safe_solutions@,
            nodes@[idx as int].safe_solutions@ <= max0,
            q <= parents@.len(),
            forall|m: int| 0 <= m < parents@.len() ==> (#[trigger] parents@[m]).0 < nodes@.len() && parents@[m].1.wf()
                && parents@[m].1@.len() == n,
        decreases parents.len() - q,
    {
        let p = parents[q].0;
        if p == idx {
            return None;
        }
        let tiles = parents[q].1.iter_ones();
        proof {
            crate::bits::lemma_ones_of(parents@[q as int].1@);
            assert(node_wf(nodes@[p as int], n, nodes@.len()));
        }
        let mut k: usize = 0;
        while k < tiles.len()
            invariant
                start == old(nodes)@,
                visits_same(start, nodes@),
                same_shape(start, nodes@),
                nodes_wf(nodes@, n),
                safe_total(nodes@) < safe_total(start),
                counts_lowered(start, nodes@),
                idx < nodes@.len(),
                max0 == seq_max(tss_values(start[idx as int].children@)),
                max0 < start[idx as int].safe_solutions@,
                nodes@[idx as int].safe_solutions@ <= max0,
                p < nodes@.len(),
                forall|m: int| 0 <= m < tiles@.len() ==> #[trigger] tiles@[m] < n,
                k <= tiles@.len(),
            decreases tiles.len() - k,
        {
            let t = tiles[k];
            proof {
                assert(node_wf(nodes@[p as int], n, nodes@.len()));
            }
            if !loss.le(&nodes[p].children[t].0) {
                return None;
            }
            let lowered = nodes[p].children[t].0.sub(&loss);
            let ghost before = nodes@;
            nodes[p].children[t].0 = lowered;
            proof {
                lemma_safe_total_update(before, p as int, nodes@[p as int]);
                assert(nodes@ == before.update(p as int, nodes@[p as int]));
                assert(same_shape(start, nodes@));
                assert forall|i: int, j: int|
                    #![trigger nodes@[i].children@[j]]
                    0 <= i < start.len() && 0 <= j < start[i].children@.len() && j < nodes@[i].children@.len() implies nodes@[i].children@[j].0@
                    <= start[i].children@[j].0@ by {
                    assert(before[i].children@[j].0@ <= start[i].children@[j].0@);
                    if i != p {
                        assert(nodes@[i] == before[i]);
                    } else if j != t {
                        assert(nodes@[i].children@[j] == before[i].children@[j]);
                    }
                }
                assert forall|i: int| 0 <= i < start.len() implies (#[trigger] nodes@[i]).safe_solutions@ <= start[i].safe_solutions@ by {
                    assert(before[i].safe_solutions@ <= start[i].safe_solutions@);
                    if i != p {
                        assert(nodes@[i] == before[i]);
                    }
                }
                assert(counts_lowered(start, nodes@));
                lemma_same_shape_wf(start, nodes@, n);
                assert forall|i: int, j: int| 0 <= i < start.len() && 0 <= j < start[i].children@.len() implies nodes@[i].children@[j].1 == start[i].children@[j].1 by {
                    assert(before[i].children@[j].1 == start[i].children@[j].1);
                    if i != p {
                        assert(nodes@[i] == before[i]);
                    } else if j != t {
                        assert(nodes@[i].children@[j] == before[i].children@[j]);
                    }
                }
            }
            k = k + 1;
        }
        let ghost before_rec = nodes@;
        match backpropogate(nodes, p, Ghost(n)) {
            None => {
                return None;
            },
            Some(()) => {},
        }
        proof {
            assert forall|i: int, j: int| 0 <= i < start.len() && 0 <= j < start[i].children@.len() implies nodes@[i].children@[j].1 == start[i].children@[j].1 by {
                assert(before_rec[i].children@[j].1 == start[i].children@[j].1);
            }
            lemma_lowered_trans(start, before_rec, nodes@);
        }
        q = q + 1;
    }
    Some(())
}

// ---------------------------------------------------------------------------------------------
// Boards the search can work from

/// A board the search can start from: a usable, symmetric graph with at least one tile and
/// degrees that fit the hint counters, consistent counters, room to number groups of tiles,
/// and no more mines flagged than the board holds.
pub open spec fn searchable<G: Graph>(b: Board<G>) -> bool {
    &&& b.wf()
    &&& symmetric_graph(b.graph)
    &&& degrees_fit(b.graph)
    &&& counters_consistent(b.grid@, b.graph)
    &&& b.grid@.len() * 256 + 1 <= usize::MAX
    &&& tile_count(b.grid@, true) <= b.num_mines
    &&& b.grid@.len() > 0
}

proof fn lemma_searchable_copy<G: Graph>(a: Board<G>, b: Board<G>)
    requires
        searchable(a),
        b.grid@ == a.grid@,
        same_graph_as(b.graph, a.graph),
        b.num_mines == a.num_mines,
    ensures
        searchable(b),
{
    assert forall|x: int, y: int|
        0 <= x < b.graph.spec_num_tiles() && 0 <= y < b.graph.spec_num_tiles() implies #[trigger] occ(
        b.graph.spec_neighbors(x),
        y,
    ) == #[trigger] occ(b.graph.spec_neighbors(y), x) by {
        assert(b.graph.spec_neighbors(x) == a.graph.spec_neighbors(x));
        assert(b.graph.spec_neighbors(y) == a.graph.spec_neighbors(y));
        assert(occ(a.graph.spec_neighbors(x), y) == occ(a.graph.spec_neighbors(y), x));
    }
    assert forall|x: int| 0 <= x < b.graph.spec_num_tiles() implies #[trigger] occ(b.graph.spec_neighbors(x), x) == 0 by {
        assert(b.graph.spec_neighbors(x) == a.graph.spec_neighbors(x));
        assert(occ(a.graph.spec_neighbors(x), x) == 0);
    }
    assert forall|x: int| 0 <= x < b.graph.spec_num_tiles() implies #[trigger] b.graph.spec_neighbors(x).len() <= u8::MAX by {
        assert(b.graph.spec_neighbors(x) == a.graph.spec_neighbors(x));
    }
    assert forall|t: int| 0 <= t < b.grid@.len() implies match #[trigger] b.grid@[t] {
        Tile::Hint { hint, remaining_mines, empties } => empties == crate::board::nbr_count(
            b.grid@,
            b.graph.spec_neighbors(t),
            false,
        ) && hint == remaining_mines + crate::board::nbr_count(b.grid@, b.graph.spec_neighbors(t), true),
        _ => true,
    } by {
        assert(b.graph.spec_neighbors(t) == a.graph.spec_neighbors(t));
        assert(a.grid@[t] == b.grid@[t]);
    }
}

/// How many times `v` occurs in the list.
fn count_occ(s: &Vec<usize>, v: usize) -> (r: usize)
    ensures
        r == occ(s@, v as int),
{
    let mut count: usize = 0;
    let mut k: usize = 0;
    while k < s.len()
        invariant
            k <= s@.len(),
            count == occ(s@.take(k as int), v as int),
            count <= k,
        decreases s.len() - k,
    {
        proof {
            crate::board::lemma_occ_step(s@, k as int, v as int);
        }
        if s[k] == v {
            count = count + 1;
        }
        k = k + 1;
    }
    assert(s@.take(s@.len() as int) == s@);
    count
}

/// How many entries of the list point at a tile of the given kind.
fn count_kind(grid: &Vec<Tile>, s: &Vec<usize>, mine: bool) -> (r: usize)
    requires
        forall|k: int| 0 <= k < s@.len() ==> #[trigger] s@[k] < grid@.len(),
    ensures
        r == crate::board::nbr_count(grid@, s@, mine),
{
    let mut count: usize = 0;
    let mut k: usize = 0;
    while k < s.len()
        invariant
            k <= s@.len(),
            forall|m: int| 0 <= m < s@.len() ==> #[trigger] s@[m] < grid@.len(),
            count == crate::board::nbr_count(grid@, s@.take(k as int), mine),
            count <= k,
        decreases s.len() - k,
    {
        proof {
            crate::board::lemma_count_step(grid@, s@, k as int, mine);
        }
        let hit = match grid[s[k]] {
            Tile::Mine { .. } => mine,
            Tile::Empty => !mine,
            _ => false,
        };
        if hit {
            count = count + 1;
        }
        k = k + 1;
    }
    assert(s@.take(s@.len() as int) == s@);
    count
}

impl<G: Graph> Board<G> {
    /// Whether a search can start from this board (`searchable`), for a usable graph.
    pub fn is_searchable(&self) -> (r: bool)
        requires
            self.graph.graph_wf(),
        ensures
            r == searchable(*self),
    {
        let n = self.graph.num_tiles();
        if self.grid.len() != n || n == 0 {
            return false;
        }
        match n.checked_mul(256) {
            None => {
                return false;
            },
            Some(m) => {
                if m == usize::MAX {
                    return false;
                }
            },
        }
        let mut a: usize = 0;
        while a < n
            invariant
                self.graph.graph_wf(),
                n == self.graph.spec_num_tiles(),
                a <= n,
                forall|x: int| 0 <= x < a ==> #[trigger] self.graph.spec_neighbors(x).len() <= u8::MAX,
            decreases n - a,
        {
            if self.graph.neighbors(a).len() > 255 {
                return false;
            }
            a = a + 1;
        }
        let mut a: usize = 0;
        while a < n
            invariant
                self.graph.graph_wf(),
                n == self.graph.spec_num_tiles(),
                a <= n,
                forall|x: int| 0 <= x < a ==> occ(#[trigger] self.graph.spec_neighbors(x), x) == 0,
                forall|x: int, q: int|
                    0 <= x < a && 0 <= q < self.graph.spec_neighbors(x).len() ==> occ(
                        self.graph.spec_neighbors(x),
                        #[trigger] self.graph.spec_neighbors(x)[q] as int,
                    ) == occ(self.graph.spec_neighbors(self.graph.spec_neighbors(x)[q] as int), x),
            decreases n - a,
        {
            let na = self.graph.neighbors(a);
            proof {
                self.graph.lemma_neighbors_in_range(a as int);
            }
            if count_occ(&na, a) != 0 {
                return false;
            }
            let mut q: usize = 0;
            while q < na.len()
                invariant
                    self.graph.graph_wf(),
                    n == self.graph.spec_num_tiles(),
                    a < n,
                    na@ == self.graph.spec_neighbors(a as int),
                    forall|m: int| 0 <= m < na@.len() ==> #[trigger] na@[m] < n,
                    q <= na@.len(),
                    forall|p: int|
                        0 <= p < q ==> occ(na@, #[trigger] na@[p] as int) == occ(
                            self.graph.spec_neighbors(na@[p] as int),
                            a as int,
                        ),
                decreases na.len() - q,
            {
                let b = na[q];
                let nb = self.graph.neighbors(b);
                if count_occ(&na, b) != count_occ(&nb, a) {
                    return false;
                }
                q = q + 1;
            }
            a = a + 1;
        }
        proof {
            assert forall|x: int, y: int|
                0 <= x < n && 0 <= y < n implies #[trigger] occ(self.graph.spec_neighbors(x), y) == #[trigger] occ(
                self.graph.spec_neighbors(y),
                x,
            ) by {
                if occ(self.graph.spec_neighbors(x), y) > 0 {
                    crate::solver::lemma_occ_listed(self.graph.spec_neighbors(x), y);
                    let q = choose|q: int| 0 <= q < self.graph.spec_neighbors(x).len() && self.graph.spec_neighbors(x)[q] == y;
                    assert(occ(self.graph.spec_neighbors(x), self.graph.spec_neighbors(x)[q] as int) == occ(
                        self.graph.spec_neighbors(self.graph.spec_neighbors(x)[q] as int),
                        x,
                    ));
                } else if occ(self.graph.spec_neighbors(y), x) > 0 {
                    crate::solver::lemma_occ_listed(self.graph.spec_neighbors(y), x);
                    let q = choose|q: int| 0 <= q < self.graph.spec_neighbors(y).len() && self.graph.spec_neighbors(y)[q] == x;
                    assert(occ(self.graph.spec_neighbors(y), self.graph.spec_neighbors(y)[q] as int) == occ(
                        self.graph.spec_neighbors(self.graph.spec_neighbors(y)[q] as int),
                        y,
                    ));
                }
            }
        }
        let mut t: usize = 0;
        while t < n
            invariant
                self.graph.graph_wf(),
                n == self.graph.spec_num_tiles(),
                self.grid@.len() == n,
                t <= n,
                degrees_fit(self.graph),
                forall|x: int|
                    0 <= x < t ==> match #[trigger] self.grid@[x] {
                        Tile::Hint { hint, remaining_mines, empties } => empties == crate::board::nbr_count(
                            self.grid@,
                            self.graph.spec_neighbors(x),
                            false,
                        ) && hint == remaining_mines + crate::board::nbr_count(
                            self.grid@,
                            self.graph.spec_neighbors(x),
                            true,
                        ),
                        _ => true,
                    },
            decreases n - t,
        {
            if let Tile::Hint { hint, remaining_mines, empties } = self.grid[t] {
                let nt = self.graph.neighbors(t);
                proof {
                    self.graph.lemma_neighbors_in_range(t as int);
                    crate::board::lemma_count_bounds(self.grid@, nt@, 0, true);
                    crate::board::lemma_count_bounds(self.grid@, nt@, 0, false);
                }
                let e = count_kind(&self.grid, &nt, false);
                let m = count_kind(&self.grid, &nt, true);
                if e != empties as usize || hint as usize != remaining_mines as usize + m {
                    return false;
                }
            }
            t = t + 1;
        }
        if self.placed_mines() > self.num_mines {
            return false;
        }
        true
    }
}

/// Whether two boards hold the same tiles and the same number of mines.
fn same_board<G: Graph>(a: &Board<G>, b: &Board<G>) -> (r: bool)
    ensures
        r == (a.grid@ == b.grid@ && a.num_mines == b.num_mines),
{
    if a.num_mines != b.num_mines || a.grid.len() != b.grid.len() {
        return false;
    }
    let mut i: usize = 0;
    while i < a.grid.len()
        invariant
            a.grid@.len() == b.grid@.len(),
            i <= a.grid@.len(),
            forall|j: int| 0 <= j < i ==> a.grid@[j] == b.grid@[j],
        decreases a.grid.len() - i,
    {
        if a.grid[i] != b.grid[i] {
            return false;
        }
        i = i + 1;
    }
    assert(a.grid@ =~= b.grid@);
    true
}

/// The node of the first position of `map`, from entry `e` on, with the given tiles and
/// number of mines.
pub open spec fn lookup_from<G: Graph>(map: Seq<(Board<G>, usize)>, grid: Seq<Tile>, num_mines: nat, e: int) -> Option<usize>
    decreases map.len() - e,
{
    if e < 0 || e >= map.len() {
        None
    } else if map[e].0.grid@ == grid && map[e].0.num_mines == num_mines {
        Some(map[e].1)
    } else {
        lookup_from(map, grid, num_mines, e + 1)
    }
}

/// No two positions of the map share a node.
spec fn map_nodes_distinct<G: Graph>(map: Seq<(Board<G>, usize)>) -> bool {
    forall|e1: int, e2: int| 0 <= e1 < map.len() && 0 <= e2 < map.len() && e1 != e2 ==> #[trigger] map[e1].1 != #[trigger] map[e2].1
}

/// A lookup that succeeds names an entry with the tiles and number of mines looked for.
proof fn lemma_lookup_match<G: Graph>(map: Seq<(Board<G>, usize)>, grid: Seq<Tile>, m: nat, e: int)
    requires
        0 <= e,
        lookup_from(map, grid, m, e) is Some,
    ensures
        exists|k: int| 0 <= k < map.len() && #[trigger] map[k].1 == lookup_from(map, grid, m, e)->0 && map[k].0.grid@ == grid,
    decreases map.len() - e,
{
    if e < map.len() {
        if map[e].0.grid@ == grid && map[e].0.num_mines == m {
            assert(map[e].1 == lookup_from(map, grid, m, e)->0);
        } else {
            lemma_lookup_match(map, grid, m, e + 1);
        }
    }
}

/// A lookup that succeeds gives the node index of one of the map's entries.
proof fn lemma_lookup_in<G: Graph>(map: Seq<(Board<G>, usize)>, grid: Seq<Tile>, m: nat, e: int)
    requires
        0 <= e,
        lookup_from(map, grid, m, e) is Some,
    ensures
        exists|k: int| 0 <= k < map.len() && #[trigger] map[k].1 == lookup_from(map, grid, m, e)->0,
    decreases map.len() - e,
{
    if e < map.len() {
        if map[e].0.grid@ == grid && map[e].0.num_mines == m {
            assert(map[e].1 == lookup_from(map, grid, m, e)->0);
        } else {
            lemma_lookup_in(map, grid, m, e + 1);
        }
    }
}

/// An entry pushed at the end of the map leaves every lookup that already succeeds.
proof fn lemma_lookup_push<G: Graph>(map: Seq<(Board<G>, usize)>, x: (Board<G>, usize), grid: Seq<Tile>, m: nat, e: int)
    requires
        0 <= e,
        lookup_from(map, grid, m, e) is Some,
    ensures
        lookup_from(map.push(x), grid, m, e) == lookup_from(map, grid, m, e),
    decreases map.len() - e,
{
    if e < map.len() {
        assert(map.push(x)[e] == map[e]);
        if !(map[e].0.grid@ == grid && map[e].0.num_mines == m) {
            lemma_lookup_push(map, x, grid, m, e + 1);
        }
    }
}


/// The tiles of a board seen as a fresh puzzle (as `normalize` makes them).
pub open spec fn normalized_grid(grid: Seq<Tile>) -> Seq<Tile> {
    Seq::new(grid.len(), |i: int| crate::board::normalized_tile(grid[i]))
}

/// A position of the tree (tiles, number of mines, node) that `root` can still turn into.
pub open spec fn position_within<G: Graph>(entry: (Seq<Tile>, usize, usize), root: Board<G>) -> bool {
    entry.1 == root.num_mines && crate::board::spec_is_grid_subset_of(entry.0, root.grid@)
}

/// Two map entries name the same position and the same node.
pub open spec fn entry_copy<G: Graph>(x: (Board<G>, usize), y: (Board<G>, usize)) -> bool {
    x.0.grid@ == y.0.grid@ && x.0.num_mines == y.0.num_mines && x.1 == y.1
}

/// `b` is a state that `root` can still turn into (what `subset_of` answers).
pub open spec fn board_within<G: Graph>(b: Board<G>, root: Board<G>) -> bool {
    b.num_mines == root.num_mines && crate::board::spec_is_grid_subset_of(b.grid@, root.grid@)
}

/// The nodes hold the same counts in both lists.
spec fn same_counts(a: Seq<Node>, b: Seq<Node>) -> bool {
    &&& a.len() == b.len()
    &&& forall|i: int| 0 <= i < a.len() ==> (#[trigger] b[i]).children == a[i].children && b[i].total_solutions
        == a[i].total_solutions && b[i].safe_solutions == a[i].safe_solutions
}

/// The parents a node lists, each as its node and its set of tiles.
spec fn parent_views(node: Node) -> Seq<(usize, Seq<bool>)> {
    Seq::new(node.parents@.len(), |m: int| (node.parents@[m].0, node.parents@[m].1@))
}

/// Every parent entry of a node of `b` is one of the same node in `a`.
spec fn parents_from(a: Seq<Node>, b: Seq<Node>) -> bool {
    forall|i: int, m: int|
        0 <= i < a.len() && i < b.len() && 0 <= m < b[i].parents@.len() ==> parent_views(a[i]).contains(
            #[trigger] parent_views(b[i])[m],
        )
}

/// Some entry of `list` names the same position and node as `x`.
#[verifier::opaque]
spec fn copied_in<G: Graph>(list: Seq<(Board<G>, usize)>, x: (Board<G>, usize)) -> bool {
    exists|k: int| 0 <= k < list.len() && entry_copy(#[trigger] list[k], x)
}

/// `x` copies one of the first `e` entries of `map`, one whose position `root` can still turn
/// into.
#[verifier::opaque]
spec fn kept_from<G: Graph>(map: Seq<(Board<G>, usize)>, e: int, x: (Board<G>, usize), root: Board<G>) -> bool {
    exists|e2: int| 0 <= e2 < e && entry_copy(x, #[trigger] map[e2]) && board_within(map[e2].0, root)
}

proof fn lemma_parents_from_refl(a: Seq<Node>)
    ensures
        parents_from(a, a),
{
    assert forall|i: int, m: int|
        0 <= i < a.len() && i < a.len() && 0 <= m < a[i].parents@.len() implies parent_views(a[i]).contains(
        #[trigger] parent_views(a[i])[m],
    ) by {
        assert(parent_views(a[i])[m] == parent_views(a[i])[m]);
    }
}

proof fn lemma_same_counts_trans(a: Seq<Node>, b: Seq<Node>, c: Seq<Node>)
    requires
        same_counts(a, b),
        same_counts(b, c),
    ensures
        same_counts(a, c),
{
    assert forall|i: int| 0 <= i < a.len() implies (#[trigger] c[i]).children == a[i].children && c[i].total_solutions
        == a[i].total_solutions && c[i].safe_solutions == a[i].safe_solutions by {
        assert(b[i].children == a[i].children);
    }
}

// ---------------------------------------------------------------------------------------------
// The search tree

/// A search over the positions reachable from `root`: each position met (by its normalized
/// board) has a node, and each node lists the positions that led to it.
#[verifier::reject_recursive_types(G)]
pub struct Tree<G: Graph> {
    /// The positions met, each with its node, looked up in order: a list whose lookups the
    /// contracts can follow (`lookup_from`), where a hash map keyed by boards would leave them
    /// unproved.
    map: Vec<(Board<G>, usize)>,
    nodes: Vec<Node>,
    root: Board<G>,
    solution_set: MineArrangements,
}

impl<G: Graph> Tree<G> {
    /// The root can be searched from, every node has one child per tile of the root, and every
    /// position names a node.
    pub closed spec fn wf(&self) -> bool {
        &&& searchable(self.root)
        &&& nodes_wf(self.nodes@, self.root.grid@.len())
        &&& forall|e: int| 0 <= e < self.map@.len() ==> (#[trigger] self.map@[e]).1 < self.nodes@.len()
        &&& map_nodes_distinct(self.map@)
    }

    /// The arrangements of the remaining mines of the root.
    pub closed spec fn spec_solution_set(&self) -> MineArrangements {
        self.solution_set
    }

    /// The board the search starts from.
    pub closed spec fn spec_root(&self) -> Board<G> {
        self.root
    }

    /// The node of the root's position, if it is still in the tree.
    closed spec fn spec_root_node(&self) -> Option<usize> {
        lookup_from(
            self.map@,
            normalized_grid(self.root.grid@),
            (self.root.num_mines - tile_count(self.root.grid@, true)) as nat,
            0,
        )
    }

    /// For the root's position, if it is still in the tree: each tile's visits with its count of
    /// placements in which it is safe (as the search has lowered it).
    pub closed spec fn spec_root_children(&self) -> Option<Seq<(nat, nat)>> {
        match self.spec_root_node() {
            Some(i) => Some(visit_keys(self.nodes@[i as int].children@)),
            None => None,
        }
    }

    /// For the root's position, if it is still in the tree: its number of placements.
    pub closed spec fn spec_root_total(&self) -> Option<nat> {
        match self.spec_root_node() {
            Some(i) => Some(self.nodes@[i as int].total_solutions@),
            None => None,
        }
    }

    /// The positions the tree has met, each as its tiles, its number of mines and the index of
    /// its node.
    pub closed spec fn spec_entries(&self) -> Seq<(Seq<Tile>, usize, usize)> {
        Seq::new(self.map@.len(), |k: int| (self.map@[k].0.grid@, self.map@[k].0.num_mines, self.map@[k].1))
    }

    /// The number of nodes.
    pub closed spec fn spec_num_nodes(&self) -> nat {
        self.nodes@.len()
    }

    /// Node `i` is still in the tree.
    pub closed spec fn spec_in_tree(&self, i: int) -> bool {
        self.nodes@[i].in_tree
    }

    /// Every parent that node `i` lists is still in the tree.
    pub closed spec fn parents_in_tree(&self, i: int) -> bool {
        forall|m: int| 0 <= m < self.nodes@[i].parents@.len() ==> self.nodes@[(#[trigger] self.nodes@[i].parents@[m]).0 as int].in_tree
    }

    /// The nodes hold the counts they held in `other`, and list no parent they did not list there.
    pub closed spec fn counts_and_parents_from(&self, other: Self) -> bool {
        same_counts(other.nodes@, self.nodes@) && parents_from(other.nodes@, self.nodes@)
    }

    /// Visit counts that only grew, with the root's position still found at the same node,
    /// leave the root's visit counts at least as large.
    proof fn lemma_root_visits(t0: Self, t1: Self)
        requires
            t0.wf(),
            t1.wf(),
            t1.root == t0.root,
            visits_kept(t0.nodes@, t1.nodes@),
            t0.spec_root_node() is Some ==> t1.spec_root_node() == t0.spec_root_node(),
        ensures
            t0.spec_root_children() matches Some(v0) ==> (t1.spec_root_children() matches Some(v1) && v1.len()
                == v0.len() && forall|j: int| 0 <= j < v0.len() ==> #[trigger] v1[j].0 >= v0[j].0),
    {
        if t0.spec_root_node() is Some {
            let i = t0.spec_root_node()->0;
            lemma_lookup_in(
                t0.map@,
                normalized_grid(t0.root.grid@),
                (t0.root.num_mines - tile_count(t0.root.grid@, true)) as nat,
                0,
            );
            let k = choose|k: int| 0 <= k < t0.map@.len() && #[trigger] t0.map@[k].1 == i;
            assert(i < t0.nodes@.len());
            let v0 = visit_keys(t0.nodes@[i as int].children@);
            let v1 = visit_keys(t1.nodes@[i as int].children@);
            assert(t1.nodes@[i as int].children@.len() == t0.nodes@[i as int].children@.len());
            assert forall|j: int| 0 <= j < v0.len() implies #[trigger] v1[j].0 >= v0[j].0 by {
                assert(t1.nodes@[i as int].children@[j].1 >= t0.nodes@[i as int].children@[j].1);
            }
        }
    }

    /// Counts that only dropped at the root's node, with the root's position still found there,
    /// leave the root's counts of safe placements at most as large.
    proof fn lemma_root_counts(t0: Self, t1: Self)
        requires
            t0.wf(),
            t1.wf(),
            t1.root == t0.root,
            t0.spec_root_node() matches Some(r0) ==> t1.spec_root_node() == Some(r0) && counts_at_lowered(
                t0.nodes@,
                t1.nodes@,
                r0 as int,
            ),
        ensures
            t0.spec_root_children() matches Some(v0) ==> (t1.spec_root_children() matches Some(v1) && v1.len() == v0.len()
                && forall|j: int| 0 <= j < v0.len() ==> #[trigger] v1[j].1 <= v0[j].1),
    {
        if t0.spec_root_node() is Some {
            let r0 = t0.spec_root_node()->0;
            let v0 = t0.spec_root_children()->0;
            let v1 = t1.spec_root_children()->0;
            assert forall|j: int| 0 <= j < v0.len() implies #[trigger] v1[j].1 <= v0[j].1 by {
                assert(t1.nodes@[r0 as int].children@[j].0@ <= t0.nodes@[r0 as int].children@[j].0@);
            }
        }
    }

    /// A visit count of the root is a `usize`.
    proof fn lemma_root_visit_bound(self, j: int)
        requires
            self.spec_root_children() is Some,
            0 <= j < self.spec_root_children()->0.len(),
        ensures
            self.spec_root_children()->0[j].0 <= usize::MAX,
    {
        let i = self.spec_root_node()->0;
        let ch = self.nodes@[i as int].children@;
        assert(ch[j].1 <= usize::MAX);
    }

    /// A round that counted a visit of the root's chosen tile in `t_mid` and kept every count
    /// from there on leaves that visit counted.
    proof fn lemma_step_progress(t_old: Self, t_mid: Self, t_new: Self)
        requires
            t_old.wf(),
            t_mid.wf(),
            t_new.wf(),
            t_mid.root == t_old.root,
            t_new.root == t_old.root,
            t_mid.map == t_old.map,
            visits_kept(t_mid.nodes@, t_new.nodes@),
            t_old.spec_root_node() is Some ==> t_new.spec_root_node() == t_old.spec_root_node(),
            t_old.spec_root_children() matches Some(v0) && v0.len() > 0 && (t_mid.spec_root_children() matches Some(vm)
                && vm.len() == v0.len() && vm[search_choice(v0)].0 == v0[search_choice(v0)].0 + 1
                && forall|j: int| 0 <= j < v0.len() && j != search_choice(v0) ==> #[trigger] vm[j].0 == v0[j].0),
            t_old.spec_root_node() matches Some(r0) && visits_at_same(t_mid.nodes@, t_new.nodes@, r0 as int),
        ensures
            t_old.spec_root_children() matches Some(v0) && (t_new.spec_root_children() matches Some(v1)
                && v1[search_choice(v0)].0 >= v0[search_choice(v0)].0 + 1),
            t_old.spec_root_children() matches Some(v0) && (t_new.spec_root_children() matches Some(v1)
                && v1.len() == v0.len() && forall|j: int| 0 <= j < v0.len() ==> #[trigger] v1[j].0 == v0[j].0 + (if j
                == search_choice(v0) {
                1int
            } else {
                0int
            })),
    {
        let v0 = t_old.spec_root_children()->0;
        lemma_last_max_index(Seq::new(v0.len(), |j: int| v0[j].1));
        Self::lemma_root_visits(t_mid, t_new);
        let r0 = t_old.spec_root_node()->0;
        assert(t_mid.spec_root_node() == Some(r0));
        let vm = t_mid.spec_root_children()->0;
        let v1 = t_new.spec_root_children()->0;
        assert forall|j: int| 0 <= j < v0.len() implies #[trigger] v1[j].0 == v0[j].0 + (if j == search_choice(v0) {
            1int
        } else {
            0int
        }) by {
            assert(v1[j].0 == t_new.nodes@[r0 as int].children@[j].1);
            assert(vm[j].0 == t_mid.nodes@[r0 as int].children@[j].1);
            if j != search_choice(v0) {
                assert(vm[j].0 == v0[j].0);
            }
        }
    }

    /// A tree holding the root's position alone; `None` when the root's placement counts do
    /// not fit the `u64` arithmetic used to compute them.
    pub fn new(root: Board<G>) -> (r: Option<Self>)
        requires
            searchable(root),
        ensures
            r is Some ==> r->0.wf() && r->0.spec_root() == root,
            r is Some ==> (r->0.spec_root_children() matches Some(v) && v.len() == root.grid@.len() && forall|j: int|
                0 <= j < v.len() ==> (#[trigger] v[j]).0 == 0 && v[j].1 == r->0.spec_solution_set().spec_tile_safe_solutions()[j]),
            r is Some ==> r->0.spec_root_total() == Some(sum_values(r->0.spec_solution_set().spec_solution_counts())),
            r is Some ==> root.arrangements_of(r->0.spec_solution_set()) && r->0.spec_solution_set().counts_ok(),
            r is None ==> exists|ss: MineArrangements| #[trigger] root.arrangements_of(ss) && !ss.counts_ok(),
    {
        let solution_set = root.solutionset();
        Self::from_solutions(root, solution_set)
    }

    /// A tree holding the root's position alone, whose arrangements of the remaining mines are
    /// `solution_set`; `None` exactly when its placement counts do not fit the `u64`
    /// arithmetic used to compute them.
    pub fn from_solutions(root: Board<G>, solution_set: MineArrangements) -> (r: Option<Self>)
        requires
            searchable(root),
            root.arrangements_of(solution_set),
        ensures
            (r is None) == !solution_set.counts_ok(),
            r is Some ==> r->0.wf() && r->0.spec_root() == root && r->0.spec_solution_set() == solution_set,
            r is Some ==> (r->0.spec_root_children() matches Some(v) && v.len() == root.grid@.len() && forall|j: int|
                0 <= j < v.len() ==> (#[trigger] v[j]).0 == 0 && v[j].1 == solution_set.spec_tile_safe_solutions()[j]),
            r is Some ==> r->0.spec_root_total() == Some(sum_values(solution_set.spec_solution_counts())),
    {
        if !solution_set.check_counts() {
            return None;
        }
        let node = Node::new(&solution_set);
        let key = root.normalize();
        let mut map: Vec<(Board<G>, usize)> = Vec::new();
        map.push((key, 0));
        let mut nodes: Vec<Node> = Vec::new();
        nodes.push(node);
        let r = Tree { map, nodes, root, solution_set };
        proof {
            assert(r.map@[0].0.grid@ == normalized_grid(r.root.grid@));
            assert(r.spec_root_node() == Some(0usize));
        }
        Some(r)
    }

    /// The node of the position of `board`, if the search has met it.
    fn get_node(&self, board: &Board<G>) -> (r: Option<usize>)
        requires
            self.wf(),
            tile_count(board.grid@, true) <= board.num_mines,
        ensures
            r is Some ==> r->0 < self.nodes@.len(),
            r == lookup_from(
                self.map@,
                normalized_grid(board.grid@),
                (board.num_mines - tile_count(board.grid@, true)) as nat,
                0,
            ),
    {
        let key = board.normalize();
        let mut e: usize = 0;
        while e < self.map.len()
            invariant
                self.wf(),
                e <= self.map@.len(),
                key.grid@ == normalized_grid(board.grid@),
                key.num_mines == board.num_mines - tile_count(board.grid@, true),
                lookup_from(self.map@, key.grid@, key.num_mines as nat, 0) == lookup_from(
                    self.map@,
                    key.grid@,
                    key.num_mines as nat,
                    e as int,
                ),
            decreases self.map.len() - e,
        {
            if same_board(&self.map[e].0, &key) {
                return Some(self.map[e].1);
            }
            e = e + 1;
        }
        None
    }

    /// Records that trying `tile` in the position of node `parent` led to the position of node
    /// `child`; the first time, the parent's count for `tile` drops by the placements in which
    /// the child's best tile is unsafe, and the parent's counts are propagated upwards. `None`
    /// when a count would become negative or a node would be its own parent.
    fn add_parent(&mut self, child: usize, parent: usize, tile: usize) -> (r: Option<()>)
        requires
            old(self).wf(),
            child < old(self).nodes@.len(),
            parent < old(self).nodes@.len(),
            tile < old(self).spec_root().grid@.len(),
        ensures
            final(self).wf(),
            final(self).spec_root() == old(self).spec_root(),
            final(self).nodes@.len() == old(self).nodes@.len(),
            final(self).map == old(self).map,
            visits_same(old(self).nodes@, final(self).nodes@),
            counts_lowered(old(self).nodes@, final(self).nodes@),
            child == parent ==> r is None && final(self).nodes@ == old(self).nodes@,
            child != parent ==> exists|q: int|
                0 <= q < final(self).nodes@[child as int].parents@.len()
                    && (#[trigger] final(self).nodes@[child as int].parents@[q]).0 == parent
                    && final(self).nodes@[child as int].parents@[q].1@[tile as int],
            (forall|q: int|
                0 <= q < old(self).nodes@[child as int].parents@.len()
                    && (#[trigger] old(self).nodes@[child as int].parents@[q]).0 == parent
                    ==> !old(self).nodes@[child as int].parents@[q].1@[tile as int]) && r is Some
                ==> final(self).nodes@[parent as int].children@[tile as int].0@ + old(self).nodes@[child as int].total_solutions@
                <= old(self).nodes@[parent as int].children@[tile as int].0@ + old(self).nodes@[child as int].safe_solutions@,
    {
        let ghost n = self.root.grid@.len();
        let ghost nodes0 = self.nodes@;
        proof {
            lemma_children_kept(nodes0, nodes0);
        }
        if child == parent {
            return None;
        }
        proof {
            assert(node_wf(self.nodes@[child as int], n, self.nodes@.len()));
        }
        let mut q: usize = 0;
        let mut found = false;
        while q < self.nodes[child].parents.len() && !found
            invariant
                self.wf(),
                self.nodes@ == nodes0,
                self.map == old(self).map,
                child < self.nodes@.len(),
                q <= self.nodes@[child as int].parents@.len(),
                found ==> q < self.nodes@[child as int].parents@.len(),
                found ==> self.nodes@[child as int].parents@[q as int].0 == parent,
            decreases self.nodes@[child as int].parents@.len() - q + if found {
                0int
            } else {
                1int
            },
        {
            if self.nodes[child].parents[q].0 == parent {
                found = true;
            } else {
                q = q + 1;
            }
        }
        if !found {
            let width = self.nodes[child].children.len();
            proof {
                assert(width == n);
                assert(crate::bitset::len_fits(n));
            }
            let ghost before = self.nodes@;
            self.nodes[child].parents.push((parent, BitSet::zeros(width)));
            proof {
                assert forall|i: int| 0 <= i < self.nodes@.len() implies node_wf(#[trigger] self.nodes@[i], n, self.nodes@.len()) by {
                    if i != child {
                        assert(self.nodes@[i] == before[i]);
                    }
                }
                assert forall|i: int| 0 <= i < before.len() implies (#[trigger] self.nodes@[i]).children == before[i].children by {
                    if i != child {
                        assert(self.nodes@[i] == before[i]);
                    }
                }
                lemma_children_kept(before, self.nodes@);
            }
            q = self.nodes[child].parents.len() - 1;
        }
        proof {
            assert(node_wf(self.nodes@[child as int], n, self.nodes@.len()));
            assert(self.nodes@[child as int].parents@[q as int].0 == parent);
        }
        if self.nodes[child].parents[q].1.get(tile) {
            proof {
                assert(self.nodes@[child as int].parents@[q as int].1@[tile as int]);
            }
            return Some(());
        }
        let ghost before = self.nodes@;
        self.nodes[child].parents[q].1.set_to_one(tile);
        proof {
            assert forall|i: int| 0 <= i < before.len() implies (#[trigger] self.nodes@[i]).children == before[i].children by {
                if i != child {
                    assert(self.nodes@[i] == before[i]);
                }
            }
            lemma_children_kept(before, self.nodes@);
            lemma_visits_same_trans(nodes0, before, self.nodes@);
            assert forall|i: int| 0 <= i < self.nodes@.len() implies node_wf(#[trigger] self.nodes@[i], n, self.nodes@.len()) by {
                if i != child {
                    assert(self.nodes@[i] == before[i]);
                } else {
                    assert forall|m: int| 0 <= m < self.nodes@[i].parents@.len() implies (#[trigger] self.nodes@[i].parents@[m]).0
                        < self.nodes@.len() && self.nodes@[i].parents@[m].1.wf() && self.nodes@[i].parents@[m].1@.len() == n by {
                        if m != q {
                            assert(self.nodes@[i].parents@[m] == before[i].parents@[m]);
                        }
                    }
                }
            }
        }
        proof {
            assert(self.nodes@[child as int].parents@[q as int].0 == parent);
            assert(self.nodes@[child as int].parents@[q as int].1@[tile as int]);
        }
        if !self.nodes[child].safe_solutions.le(&self.nodes[child].total_solutions) {
            return None;
        }
        let unsafe_count = self.nodes[child].total_solutions.sub(&self.nodes[child].safe_solutions);
        proof {
            assert(node_wf(self.nodes@[parent as int], n, self.nodes@.len()));
        }
        if !unsafe_count.le(&self.nodes[parent].children[tile].0) {
            return None;
        }
        let lowered = self.nodes[parent].children[tile].0.sub(&unsafe_count);
        let ghost before = self.nodes@;
        self.nodes[parent].children[tile].0 = lowered;
        proof {
            assert(same_shape(before, self.nodes@));
            lemma_same_shape_wf(before, self.nodes@, n);
            assert(n <= usize::MAX);
            assert forall|i: int, j: int|
                #![trigger self.nodes@[i].children@[j]]
                0 <= i < before.len() && 0 <= j < before[i].children@.len() implies self.nodes@[i].children@[j].1
                == before[i].children@[j].1 by {
                if i != parent {
                    assert(self.nodes@[i] == before[i]);
                } else if j != tile {
                    assert(self.nodes@[i].children@[j] == before[i].children@[j]);
                }
            }
            assert(visits_same(before, self.nodes@));
            lemma_visits_same_trans(nodes0, before, self.nodes@);
        }
        let ghost before_back = self.nodes@;
        let r = backpropogate(&mut self.nodes, parent, Ghost(n));
        proof {
            assert forall|e: int| 0 <= e < self.map@.len() implies (#[trigger] self.map@[e]).1 < self.nodes@.len() by {}
            lemma_visits_same_trans(nodes0, before_back, self.nodes@);
        }
        r
    }

    /// The node of the root's position, if it is still in the tree.
    fn root_node(&self) -> (r: Option<usize>)
        requires
            self.wf(),
        ensures
            r is Some ==> r->0 < self.nodes@.len(),
            r == self.spec_root_node(),
    {
        self.get_node(&self.root)
    }

    /// The tile tried most often from the root (ties going to the larger count of safe
    /// placements, then to the later tile); `None` when the root's position is no longer in
    /// the tree.
    pub fn best_move(&self) -> (r: Option<usize>)
        requires
            self.wf(),
        ensures
            r is Some ==> r->0 < self.spec_root().grid@.len(),
            match self.spec_root_children() {
                Some(v) => r == Some(last_lex_max_index(v) as usize),
                None => r is None,
            },
    {
        let node = self.root_node()?;
        proof {
            assert(node_wf(self.nodes@[node as int], self.root.grid@.len(), self.nodes@.len()));
        }
        proof {
            lemma_last_lex_max_index(visit_keys(self.nodes@[node as int].children@));
        }
        Some(self.nodes[node].best_move())
    }

    /// How often each tile was tried from the root; `None` when the root's position is no
    /// longer in the tree.
    pub fn visit_counts(&self) -> (r: Option<Vec<usize>>)
        requires
            self.wf(),
        ensures
            r is Some ==> r->0@.len() == self.spec_root().grid@.len(),
            match self.spec_root_children() {
                Some(v) => r is Some && r->0@.len() == v.len() && forall|j: int| 0 <= j < v.len() ==> #[trigger] r->0@[j]
                    == v[j].0,
                None => r is None,
            },
    {
        let node = self.root_node()?;
        proof {
            assert(node_wf(self.nodes@[node as int], self.root.grid@.len(), self.nodes@.len()));
        }
        let children = &self.nodes[node].children;
        let mut out: Vec<usize> = Vec::new();
        let mut i: usize = 0;
        while i < children.len()
            invariant
                i <= children@.len(),
                out@.len() == i,
                forall|j: int| 0 <= j < i ==> #[trigger] out@[j] == children@[j].1,
            decreases children.len() - i,
        {
            out.push(children[i].1);
            i = i + 1;
        }
        Some(out)
    }

    /// The root's number of placements and, for each tile, its count of placements in which
    /// the tile is safe, as the search has lowered it; `None` when the root's position is no
    /// longer in the tree.
    pub fn root_counts(&self) -> (r: Option<(BigNat, Vec<BigNat>)>)
        requires
            self.wf(),
        ensures
            r is Some ==> (r->0).1@.len() == self.spec_root().grid@.len(),
            match (self.spec_root_children(), self.spec_root_total()) {
                (Some(v), Some(total)) => r is Some && (r->0).0@ == total && (r->0).1@.len() == v.len() && forall|j: int|
                    0 <= j < v.len() ==> (#[trigger] (r->0).1@[j])@ == v[j].1,
                _ => r is None,
            },
    {
        let node = self.root_node()?;
        proof {
            assert(node_wf(self.nodes@[node as int], self.root.grid@.len(), self.nodes@.len()));
        }
        let children = &self.nodes[node].children;
        let mut out: Vec<BigNat> = Vec::new();
        let mut i: usize = 0;
        while i < children.len()
            invariant
                i <= children@.len(),
                out@.len() == i,
                forall|j: int| 0 <= j < i ==> (#[trigger] out@[j])@ == children@[j].0@,
            decreases children.len() - i,
        {
            out.push(children[i].0.clone());
            i = i + 1;
        }
        Some((self.nodes[node].total_solutions.clone(), out))
    }

    /// Drops from the tree every position that is not a state `root` can still turn into, and
    /// from every node kept the parents dropped. The root the search starts from stays as it
    /// was.
    #[verifier::rlimit(100)]
    pub fn set_root(&mut self, root: Board<G>)
        requires
            old(self).wf(),
        ensures
            final(self).wf(),
            final(self).spec_root() == old(self).spec_root(),
            final(self).spec_num_nodes() == old(self).spec_num_nodes(),
            forall|k: int| 0 <= k < final(self).spec_entries().len() ==> old(self).spec_entries().contains(
                #[trigger] final(self).spec_entries()[k],
            ) && position_within(final(self).spec_entries()[k], root),
            forall|e: int| 0 <= e < old(self).spec_entries().len() && position_within(#[trigger] old(self).spec_entries()[e], root)
                ==> final(self).spec_entries().contains(old(self).spec_entries()[e]),
            forall|e: int| 0 <= e < old(self).spec_entries().len() && !position_within(#[trigger] old(self).spec_entries()[e], root)
                ==> !final(self).spec_in_tree(old(self).spec_entries()[e].2 as int),
            final(self).counts_and_parents_from(*old(self)),
            forall|k: int| 0 <= k < final(self).spec_entries().len() ==> final(self).parents_in_tree(
                #[trigger] final(self).spec_entries()[k].2 as int),
    {
        let ghost n = self.root.grid@.len();
        let ghost map0 = self.map@;
        let ghost nodes0 = self.nodes@;
        let mut kept: Vec<(Board<G>, usize)> = Vec::new();
        let mut e: usize = 0;
        while e < self.map.len()
            invariant
                self.wf(),
                self.root == old(self).spec_root(),
                n == self.root.grid@.len(),
                self.map@ == map0,
                map0 == old(self).map@,
                nodes0 == old(self).nodes@,
                e <= self.map@.len(),
                forall|k: int| 0 <= k < kept@.len() ==> (#[trigger] kept@[k]).1 < self.nodes@.len(),
                map_nodes_distinct(kept@),
                same_counts(nodes0, self.nodes@),
                forall|i: int| 0 <= i < nodes0.len() ==> (#[trigger] self.nodes@[i]).parents == nodes0[i].parents,
                forall|k: int| 0 <= k < kept@.len() ==> kept_from(map0, e as int, #[trigger] kept@[k], root),
                forall|e2: int| 0 <= e2 < e && board_within(#[trigger] map0[e2].0, root) ==> copied_in(kept@, map0[e2]),
                forall|e2: int| 0 <= e2 < e && !board_within(#[trigger] map0[e2].0, root) ==> !self.nodes@[map0[e2].1 as int].in_tree,
            decreases self.map.len() - e,
        {
            let idx = self.map[e].1;
            if self.map[e].0.subset_of(&root) {
                let key = self.map[e].0.copy();
                let ghost kept0 = kept@;
                kept.push((key, idx));
                proof {
                    assert(entry_copy(kept@[kept0.len() as int], map0[e as int]));
                    assert forall|k1: int, k2: int| 0 <= k1 < kept@.len() && 0 <= k2 < kept@.len() && k1 != k2 implies
                        #[trigger] kept@[k1].1 != #[trigger] kept@[k2].1 by {
                        if k1 < kept0.len() && k2 < kept0.len() {
                            assert(kept@[k1] == kept0[k1]);
                            assert(kept@[k2] == kept0[k2]);
                        } else {
                            let k = if k1 < kept0.len() { k1 } else { k2 };
                            reveal(kept_from);
                            assert(kept_from(map0, e as int, kept0[k], root));
                            let e2 = choose|e2: int| 0 <= e2 < e && entry_copy(kept0[k], #[trigger] map0[e2]) && board_within(map0[e2].0, root);
                            assert(map0[e2].1 != map0[e as int].1);
                            assert(kept@[k] == kept0[k]);
                        }
                    }
                    assert forall|k: int| 0 <= k < kept@.len() implies kept_from(map0, e + 1, #[trigger] kept@[k], root) by {
                        reveal(kept_from);
                        if k < kept0.len() {
                            assert(kept@[k] == kept0[k]);
                            assert(kept_from(map0, e as int, kept0[k], root));
                        } else {
                            assert(entry_copy(kept@[k], map0[e as int]));
                        }
                    }
                    assert forall|e2: int| 0 <= e2 < e + 1 && board_within(#[trigger] map0[e2].0, root) implies copied_in(
                        kept@, map0[e2]) by {
                        reveal(copied_in);
                        if e2 < e {
                            assert(copied_in(kept0, map0[e2]));
                            let k = choose|k: int| 0 <= k < kept0.len() && entry_copy(kept0[k], map0[e2]);
                            assert(kept@[k] == kept0[k]);
                        } else {
                            assert(entry_copy(kept@[kept0.len() as int], map0[e2]));
                        }
                    }
                }
            } else {
                let ghost before = self.nodes@;
                self.nodes[idx].in_tree = false;
                proof {
                    assert forall|i: int| 0 <= i < self.nodes@.len() implies node_wf(#[trigger] self.nodes@[i], n, self.nodes@.len()) by {
                        assert(node_wf(before[i], n, before.len()));
                        if i != idx {
                            assert(self.nodes@[i] == before[i]);
                        }
                    }
                    assert forall|i: int| 0 <= i < nodes0.len() implies (#[trigger] self.nodes@[i]).parents == nodes0[i].parents
                        && self.nodes@[i].children == nodes0[i].children && self.nodes@[i].total_solutions == nodes0[i].total_solutions
                        && self.nodes@[i].safe_solutions == nodes0[i].safe_solutions by {
                        if i != idx {
                            assert(self.nodes@[i] == before[i]);
                        }
                    }
                    assert forall|k: int| 0 <= k < kept@.len() implies kept_from(map0, e + 1, #[trigger] kept@[k], root) by {
                        reveal(kept_from);
                        assert(kept_from(map0, e as int, kept@[k], root));
                    }
                    assert forall|e2: int| 0 <= e2 < e + 1 && !board_within(#[trigger] map0[e2].0, root) implies !self.nodes@[map0[e2].1 as int].in_tree by {
                        if e2 < e && map0[e2].1 != idx {
                            assert(self.nodes@[map0[e2].1 as int] == before[map0[e2].1 as int]);
                        }
                    }
                }
            }
            e = e + 1;
        }
        let ghost kept_v = kept@;
        self.map = kept;
        let ghost nodes1 = self.nodes@;
        proof {
            lemma_parents_from_refl(nodes1);
            assert(parents_from(nodes1, nodes1));
            assert(same_counts(nodes1, nodes1));
        }
        let mut e: usize = 0;
        while e < self.map.len()
            invariant
                self.wf(),
                self.root == old(self).spec_root(),
                n == self.root.grid@.len(),
                e <= self.map@.len(),
                nodes1.len() == self.nodes@.len(),
                self.map@ == kept_v,
                same_counts(nodes0, nodes1),
                same_counts(nodes1, self.nodes@),
                forall|i: int| 0 <= i < nodes1.len() ==> (#[trigger] self.nodes@[i]).in_tree == nodes1[i].in_tree,
                parents_from(nodes1, self.nodes@),
                forall|k: int, m: int|
                    0 <= k < e && 0 <= m < self.nodes@[self.map@[k].1 as int].parents@.len()
                        ==> self.nodes@[(#[trigger] self.nodes@[self.map@[k].1 as int].parents@[m]).0 as int].in_tree,
            decreases self.map.len() - e,
        {
            let idx = self.map[e].1;
            proof {
                assert(node_wf(self.nodes@[idx as int], n, self.nodes@.len()));
            }
            let mut kept_parents: Vec<(usize, BitSet)> = Vec::new();
            let mut q: usize = 0;
            while q < self.nodes[idx].parents.len()
                invariant
                    self.wf(),
                    idx < self.nodes@.len(),
                    n == self.root.grid@.len(),
                    q <= self.nodes@[idx as int].parents@.len(),
                    forall|k: int| 0 <= k < kept_parents@.len() ==> (#[trigger] kept_parents@[k]).0 < self.nodes@.len()
                        && kept_parents@[k].1.wf() && kept_parents@[k].1@.len() == n
                        && self.nodes@[kept_parents@[k].0 as int].in_tree
                        && exists|m2: int| 0 <= m2 < self.nodes@[idx as int].parents@.len()
                            && #[trigger] self.nodes@[idx as int].parents@[m2].0 == kept_parents@[k].0
                            && self.nodes@[idx as int].parents@[m2].1@ == kept_parents@[k].1@,
                decreases self.nodes@[idx as int].parents@.len() - q,
            {
                proof {
                    assert(node_wf(self.nodes@[idx as int], n, self.nodes@.len()));
                }
                let p = self.nodes[idx].parents[q].0;
                if self.nodes[p].in_tree {
                    let ghost kp0 = kept_parents@;
                    kept_parents.push((p, self.nodes[idx].parents[q].1.clone()));
                    proof {
                        assert forall|k: int| 0 <= k < kept_parents@.len() implies (#[trigger] kept_parents@[k]).0 < self.nodes@.len()
                            && kept_parents@[k].1.wf() && kept_parents@[k].1@.len() == n
                            && self.nodes@[kept_parents@[k].0 as int].in_tree
                            && exists|m2: int| 0 <= m2 < self.nodes@[idx as int].parents@.len()
                                && #[trigger] self.nodes@[idx as int].parents@[m2].0 == kept_parents@[k].0
                                && self.nodes@[idx as int].parents@[m2].1@ == kept_parents@[k].1@ by {
                            if k < kp0.len() {
                                assert(kept_parents@[k] == kp0[k]);
                            } else {
                                assert(self.nodes@[idx as int].parents@[q as int].0 == kept_parents@[k].0);
                            }
                        }
                    }
                }
                q = q + 1;
            }
            let ghost before = self.nodes@;
            self.nodes[idx].parents = kept_parents;
            proof {
                assert forall|i: int| 0 <= i < self.nodes@.len() implies node_wf(#[trigger] self.nodes@[i], n, self.nodes@.len()) by {
                    assert(node_wf(before[i], n, before.len()));
                    if i != idx {
                        assert(self.nodes@[i] == before[i]);
                    }
                }
                assert forall|i: int| 0 <= i < nodes1.len() implies (#[trigger] self.nodes@[i]).in_tree == nodes1[i].in_tree
                    && self.nodes@[i].children == nodes1[i].children && self.nodes@[i].total_solutions == nodes1[i].total_solutions
                    && self.nodes@[i].safe_solutions == nodes1[i].safe_solutions by {
                    if i != idx {
                        assert(self.nodes@[i] == before[i]);
                    }
                }
                assert(same_counts(nodes1, self.nodes@));
                assert forall|i: int, m: int| 0 <= i < nodes1.len() && i < self.nodes@.len() && 0 <= m < self.nodes@[i].parents@.len()
                    implies parent_views(nodes1[i]).contains(#[trigger] parent_views(self.nodes@[i])[m]) by {
                    assert(parents_from(nodes1, before));
                    if i != idx {
                        assert(self.nodes@[i] == before[i]);
                        assert(parent_views(nodes1[i]).contains(parent_views(before[i])[m]));
                    } else {
                        assert(self.nodes@[i].parents@[m] == kept_parents@[m]);
                        let m1 = choose|m1: int| 0 <= m1 < before[idx as int].parents@.len()
                            && #[trigger] before[idx as int].parents@[m1].0 == kept_parents@[m].0
                            && before[idx as int].parents@[m1].1@ == kept_parents@[m].1@;
                        assert(parent_views(before[i])[m1] == parent_views(self.nodes@[i])[m]);
                        assert(parent_views(nodes1[i]).contains(parent_views(before[i])[m1]));
                    }
                }
                assert(parents_from(nodes1, self.nodes@));
                assert forall|k: int, m: int|
                    0 <= k < e + 1 && 0 <= m < self.nodes@[self.map@[k].1 as int].parents@.len()
                        implies self.nodes@[(#[trigger] self.nodes@[self.map@[k].1 as int].parents@[m]).0 as int].in_tree by {
                    let j = self.map@[k].1 as int;
                    if j != idx {
                        assert(self.nodes@[j] == before[j]);
                        assert(k < e);
                        assert(before[before.len() as int - before.len() + j] == before[j]);
                        let pm = before[self.map@[k].1 as int].parents@[m];
                        assert(before[pm.0 as int].in_tree);
                        assert(self.nodes@[pm.0 as int].in_tree == before[pm.0 as int].in_tree) by {
                            if pm.0 != idx {
                                assert(self.nodes@[pm.0 as int] == before[pm.0 as int]);
                            }
                        }
                    } else {
                        assert(self.nodes@[j].parents@[m] == kept_parents@[m]);
                        let x = kept_parents@[m].0 as int;
                        assert(before[x].in_tree);
                        if x != idx {
                            assert(self.nodes@[x] == before[x]);
                        }
                    }
                }
            }
            e = e + 1;
        }
        proof {
            lemma_same_counts_trans(nodes0, nodes1, self.nodes@);
            let ent0 = old(self).spec_entries();
            let ent1 = self.spec_entries();
            assert forall|k: int| 0 <= k < ent1.len() implies ent0.contains(#[trigger] ent1[k]) && position_within(ent1[k], root) by {
                assert(kept_from(map0, map0.len() as int, kept_v[k], root));
                reveal(kept_from);
                let e2 = choose|e2: int| 0 <= e2 < map0.len() && entry_copy(kept_v[k], map0[e2]) && board_within(map0[e2].0, root);
                assert(self.map@[k] == kept_v[k]);
                assert(ent1[k] == ent0[e2]);
            }
            assert forall|e2: int| 0 <= e2 < ent0.len() && position_within(#[trigger] ent0[e2], root) implies ent1.contains(ent0[e2]) by {
                assert(board_within(map0[e2].0, root));
                assert(copied_in(kept_v, map0[e2]));
                reveal(copied_in);
                let k = choose|k: int| 0 <= k < kept_v.len() && entry_copy(kept_v[k], map0[e2]);
                assert(self.map@[k] == kept_v[k]);
                assert(ent1[k] == ent0[e2]);
            }
            assert forall|e2: int| 0 <= e2 < ent0.len() && !position_within(#[trigger] ent0[e2], root) implies !self.spec_in_tree(
                ent0[e2].2 as int) by {
                assert(!board_within(map0[e2].0, root));
                assert(!nodes1[map0[e2].1 as int].in_tree);
            }
            assert forall|k: int| 0 <= k < ent1.len() implies self.parents_in_tree(#[trigger] ent1[k].2 as int) by {
                assert forall|m: int| 0 <= m < self.nodes@[self.map@[k].1 as int].parents@.len() implies self.nodes@[(
                    self.nodes@[self.map@[k].1 as int].parents@[m]).0 as int].in_tree by {
                    assert(self.nodes@[(self.nodes@[self.map@[k].1 as int].parents@[m]).0 as int].in_tree);
                }
            }
        }
    }
}

impl<G: Graph> Tree<G> {
    /// One round of the search: from the root, repeatedly tries the most promising tile of the
    /// current position (counting the visit), on a game whose mines are drawn at random among
    /// the placements the position allows, and solves as far as that game allows, until it
    /// reaches a position the tree has not met (which gets a node) or a solved board, or no
    /// tile is worth trying. `None` when a step the search relies on fails: a count would
    /// become negative or overflow, the tile to try is not undecided, or the game or board
    /// refused a move.
    pub fn step(&mut self) -> (r: Option<()>)
        requires
            old(self).wf(),
        ensures
            final(self).wf(),
            final(self).spec_root() == old(self).spec_root(),
            old(self).spec_root_children() matches Some(v0) ==> (final(self).spec_root_children() matches Some(v1)
                && v1.len() == v0.len() && forall|j: int| 0 <= j < v0.len() ==> #[trigger] v1[j].0 >= v0[j].0),
            old(self).spec_root_children() is None ==> r is None && *final(self) == *old(self),
            old(self).spec_root_children() matches Some(v0) ==> ((v0.len() == 0 || v0[search_choice(v0)].1 == 0) ==> r is Some
                && *final(self) == *old(self)),
            old(self).spec_root_children() matches Some(v0) ==> (v0.len() > 0 && v0[search_choice(v0)].1 > 0
                && v0[search_choice(v0)].0 < usize::MAX ==> (final(self).spec_root_children() matches Some(v1)
                && v1[search_choice(v0)].0 >= v0[search_choice(v0)].0 + 1)),
            old(self).spec_root_children() matches Some(v0) ==> (v0.len() > 0 && v0[search_choice(v0)].1 > 0
                && v0[search_choice(v0)].0 < usize::MAX ==> (final(self).spec_root_children() matches Some(v1)
                && forall|j: int| 0 <= j < v0.len() ==> #[trigger] v1[j].0 == v0[j].0 + (if j == search_choice(v0) {
                1int
            } else {
                0int
            }))),
            old(self).spec_root_children() matches Some(v0) ==> (v0.len() > 0 && v0[search_choice(v0)].0 == usize::MAX
                ==> *final(self) == *old(self)),
            old(self).spec_root_children() matches Some(v0) ==> (final(self).spec_root_children() matches Some(v1)
                && forall|j: int| 0 <= j < v0.len() ==> #[trigger] v1[j].1 <= v0[j].1),
    {
        let ghost n = self.root.grid@.len();
        proof {
            lemma_children_kept(self.nodes@, self.nodes@);
            lemma_same_is_kept(self.nodes@, self.nodes@);
        }
        let mut board = self.root.copy();
        proof {
            lemma_searchable_copy(self.root, board);
        }
        let mut node = match self.get_node(&board) {
            Some(i) => i,
            None => {
                proof {
                    Self::lemma_root_visits(*old(self), *self);
                }
                return None;
            },
        };
        let ghost v0 = visit_keys(self.nodes@[node as int].children@);
        let ghost c = search_choice(v0);
        let ghost r0 = node;
        let ghost mut first_done = false;
        proof {
            assert(counts_at_lowered(self.nodes@, self.nodes@, r0 as int));
        }
        let ghost mut mid = *self;
        proof {
            assert(self.spec_root_node() == Some(node));
            assert(old(self).spec_root_children() == Some(v0));
            assert(Seq::new(v0.len(), |j: int| v0[j].1) =~= tss_values(self.nodes@[node as int].children@));
        }
        let mut tile: usize = 0;
        loop
            invariant_except_break
                first_done ==> node != r0,
            invariant
                old(self).wf(),
                self.wf(),
                self.map == old(self).map,
                visits_kept(old(self).nodes@, self.nodes@),
                self.root == old(self).spec_root(),
                n == self.root.grid@.len(),
                searchable(board),
                board.grid@.len() == n,
                node < self.nodes@.len(),
                tile < n,
                old(self).spec_root_children() == Some(v0),
                c == search_choice(v0),
                old(self).spec_root_node() == Some(r0),
                r0 < old(self).nodes@.len(),
                counts_at_lowered(old(self).nodes@, self.nodes@, r0 as int),
                !first_done ==> *self == *old(self) && old(self).spec_root_node() == Some(node) && v0 == visit_keys(
                    self.nodes@[node as int].children@) && node == r0 && board.grid@ == old(self).root.grid@,
                first_done ==> {
                    &&& mid.wf()
                    &&& mid.root == old(self).root
                    &&& mid.map == old(self).map
                    &&& visits_kept(mid.nodes@, self.nodes@)
                    &&& v0.len() > 0
                    &&& v0[c].1 > 0
                    &&& v0[c].0 < usize::MAX
                    &&& mid.spec_root_children() matches Some(vm) && vm.len() == v0.len() && vm[c].0 == v0[c].0 + 1
                        && forall|j: int| 0 <= j < v0.len() && j != c ==> #[trigger] vm[j].0 == v0[j].0
                    &&& visits_at_same(mid.nodes@, self.nodes@, r0 as int)
                    &&& 0 <= c < n
                    &&& old(self).root.grid@[c] is Empty
                    &&& !(board.grid@[c] is Empty)
                },
            ensures
                first_done,
                mid.wf(),
                mid.root == old(self).root,
                mid.map == old(self).map,
                visits_kept(mid.nodes@, self.nodes@),
                v0.len() > 0,
                mid.spec_root_children() matches Some(vm) && vm.len() == v0.len() && vm[c].0 == v0[c].0 + 1
                    && forall|j: int| 0 <= j < v0.len() && j != c ==> #[trigger] vm[j].0 == v0[j].0,
                visits_at_same(mid.nodes@, self.nodes@, r0 as int),
                old(self).spec_root_node() == Some(r0),
                r0 < old(self).nodes@.len(),
                counts_at_lowered(old(self).nodes@, self.nodes@, r0 as int),
            decreases potential(board.grid@),
        {
            let ghost fresh = !first_done;
            proof {
                assert(node_wf(self.nodes@[node as int], n, self.nodes@.len()));
            }
            match self.nodes[node].move_to_search() {
                Some(t) => {
                    tile = t;
                },
                None => {
                    proof {
                        Self::lemma_root_visits(*old(self), *self);
                        Self::lemma_root_counts(*old(self), *self);
                        if first_done {
                            Self::lemma_step_progress(*old(self), mid, *self);
                        } else {
                            assert(Seq::new(v0.len(), |j: int| v0[j].1) =~= tss_values(self.nodes@[node as int].children@));
                        }
                    }
                    return Some(());
                },
            }
            proof {
                lemma_last_max_index(tss_values(self.nodes@[node as int].children@));
            }
            let visits = self.nodes[node].children[tile].1;
            if visits == usize::MAX {
                proof {
                    Self::lemma_root_visits(*old(self), *self);
                    Self::lemma_root_counts(*old(self), *self);
                    if first_done {
                        Self::lemma_step_progress(*old(self), mid, *self);
                    } else {
                        assert(Seq::new(v0.len(), |j: int| v0[j].1) =~= tss_values(self.nodes@[node as int].children@));
                        assert(tile as int == c);
                    }
                }
                return None;
            }
            let ghost before = self.nodes@;
            self.nodes[node].children[tile].1 = visits + 1;
            proof {
                assert(same_shape(before, self.nodes@));
                lemma_same_shape_wf(before, self.nodes@, n);
                assert forall|i: int, j: int|
                    #![trigger self.nodes@[i].children@[j]]
                    0 <= i < before.len() && 0 <= j < before[i].children@.len() implies self.nodes@[i].children@[j].1
                    >= before[i].children@[j].1 by {
                    if i != node {
                        assert(self.nodes@[i] == before[i]);
                    } else if j != tile {
                        assert(self.nodes@[i].children@[j] == before[i].children@[j]);
                    }
                }
                assert forall|i: int| 0 <= i < before.len() implies (#[trigger] self.nodes@[i]).children@.len()
                    == before[i].children@.len() by {}
                assert(visits_kept(before, self.nodes@));
                lemma_visits_trans(old(self).nodes@, before, self.nodes@);
                assert forall|j: int| 0 <= j < old(self).nodes@[r0 as int].children@.len() implies
                    #[trigger] self.nodes@[r0 as int].children@[j].0@ <= old(self).nodes@[r0 as int].children@[j].0@ by {
                    assert(before[r0 as int].children@[j].0@ <= old(self).nodes@[r0 as int].children@[j].0@);
                    if r0 != node {
                        assert(self.nodes@[r0 as int] == before[r0 as int]);
                    } else if j != tile {
                        assert(self.nodes@[r0 as int].children@[j] == before[r0 as int].children@[j]);
                    }
                }
                if first_done {
                    lemma_visits_trans(mid.nodes@, before, self.nodes@);
                    assert(self.nodes@[r0 as int] == before[r0 as int]);
                    assert forall|j: int| 0 <= j < mid.nodes@[r0 as int].children@.len() implies
                        #[trigger] self.nodes@[r0 as int].children@[j].1 == mid.nodes@[r0 as int].children@[j].1 by {
                        assert(before[r0 as int].children@[j].1 == mid.nodes@[r0 as int].children@[j].1);
                    }
                } else {
                    assert(Seq::new(v0.len(), |j: int| v0[j].1) =~= tss_values(before[node as int].children@));
                    assert(tile as int == c);
                    mid = *self;
                    first_done = true;
                    lemma_children_kept(self.nodes@, self.nodes@);
                    lemma_same_is_kept(self.nodes@, self.nodes@);
                    assert(mid.spec_root_node() == Some(node));
                    assert(mid.nodes@[node as int].children@[tile as int].1 == v0[c].0 + 1);
                    let vm = mid.spec_root_children()->0;
                    assert forall|j: int| 0 <= j < v0.len() && j != c implies #[trigger] vm[j].0 == v0[j].0 by {
                        assert(self.nodes@[node as int].children@[j] == before[node as int].children@[j]);
                    }
                }
            }
            if board.grid[tile] != Tile::Empty {
                proof {
                    Self::lemma_root_visits(*old(self), *self);
                    Self::lemma_root_counts(*old(self), *self);
                    Self::lemma_step_progress(*old(self), mid, *self);
                }
                return None;
            }
            let ghost g0 = board.grid@;
            let ghost nx = board.nbrs(tile as int);
            proof {
                law_consistent_ops_fit(g0, board.graph, tile as int);
                if fresh {
                    assert(tile as int == c);
                    assert(old(self).root.grid@[c] is Empty);
                } else {
                    assert(tile as int != c);
                }
            }
            board.assert_tile(tile);
            let ghost g1 = board.grid@;
            proof {
                law_assert_keeps_counters(g0, board.graph, tile as int);
                assert forall|i: int| 0 <= i < g1.len() implies is_kind(#[trigger] g1[i], true) == is_kind(g0[i], true) by {
                    if i != tile {
                        lemma_shift_kind(g0[i], signed_count(0, occ(nx, i)), signed_count(-1, occ(nx, i)));
                    }
                }
                lemma_tile_count_same_kinds(g1, g0, true);
            }
            let ss = board.solutionset();
            if !ss.check_counts() {
                proof {
                    Self::lemma_root_visits(*old(self), *self);
                    Self::lemma_root_counts(*old(self), *self);
                    Self::lemma_step_progress(*old(self), mid, *self);
                }
                return None;
            }
            let total = ss.total_solutions();
            let zero = BigNat::zero();
            if total.le(&zero) {
                proof {
                    Self::lemma_root_visits(*old(self), *self);
                    Self::lemma_root_counts(*old(self), *self);
                    Self::lemma_step_progress(*old(self), mid, *self);
                }
                return None;
            }
            let game = ss.sample_game_with_board(&board);
            proof {
                law_consistent_ops_fit(g1, board.graph, tile as int);
            }
            board.clear_tile(tile);
            proof {
                assert forall|i: int| 0 <= i < g0.len() implies board.grid@[i] == g0[i] by {
                    if i != tile {
                        assert(g1[i] == crate::board::shift_hint(
                            g0[i],
                            signed_count(0, occ(nx, i)),
                            signed_count(-1, occ(nx, i)),
                        ));
                    }
                }
                assert(board.grid@ =~= g0);
                assert forall|p: int| 0 <= p < board.grid@.len() implies #[trigger] game.can_explore(p) by {
                    assert(game.graph.spec_neighbors(p) == board.graph.spec_neighbors(p));
                    lemma_mine_count_le(game.grid->0@, game.graph.spec_neighbors(p));
                }
            }
            let mut solver = Solver::new(board, game);
            let ghost g_before = board.grid@;
            match solver.uncover_step(tile) {
                Some(true) => {},
                _ => {
                    proof {
                        Self::lemma_root_visits(*old(self), *self);
                        Self::lemma_root_counts(*old(self), *self);
                        Self::lemma_step_progress(*old(self), mid, *self);
                    }
                    return None;
                },
            }
            let ghost g_mid = solver.spec_board().grid@;
            match solver.solve() {
                None => {
                    proof {
                        Self::lemma_root_visits(*old(self), *self);
                        Self::lemma_root_counts(*old(self), *self);
                        Self::lemma_step_progress(*old(self), mid, *self);
                    }
                    return None;
                },
                Some(()) => {},
            }
            board = solver.into_board();
            proof {
                assert(!(board.grid@[c] is Empty)) by {
                    assert(board.grid@[c].spec_subset_of(g_mid[c]));
                    if fresh {
                        assert(!(g_mid[c] is Empty));
                    } else {
                        assert(g_mid[c].spec_subset_of(g_before[c]));
                        assert(g_before[c] == g0[c]);
                    }
                }
            }
            if board.is_solved() {
                proof {
                    Self::lemma_root_visits(*old(self), *self);
                    Self::lemma_root_counts(*old(self), *self);
                    Self::lemma_step_progress(*old(self), mid, *self);
                }
                return Some(());
            }
            match self.get_node(&board) {
                Some(next) => {
                    proof {
                        if next == r0 {
                            let gb = normalized_grid(board.grid@);
                            let gr = normalized_grid(old(self).root.grid@);
                            lemma_lookup_match(self.map@, gb, (board.num_mines - tile_count(board.grid@, true)) as nat, 0);
                            lemma_lookup_match(
                                old(self).map@,
                                gr,
                                (old(self).root.num_mines - tile_count(old(self).root.grid@, true)) as nat,
                                0,
                            );
                            let k1 = choose|k: int| 0 <= k < self.map@.len() && #[trigger] self.map@[k].1 == r0
                                && self.map@[k].0.grid@ == gb;
                            let k2 = choose|k: int| 0 <= k < old(self).map@.len() && #[trigger] old(self).map@[k].1 == r0
                                && old(self).map@[k].0.grid@ == gr;
                            assert(map_nodes_distinct(old(self).map@));
                            assert(k1 == k2);
                            assert(gb[c] == gr[c]);
                            assert(false);
                        }
                    }
                    let ghost before_add = self.nodes@;
                    let res = self.add_parent(next, node, tile);
                    proof {
                        lemma_same_is_kept(before_add, self.nodes@);
                        lemma_visits_trans(old(self).nodes@, before_add, self.nodes@);
                        lemma_same_is_kept(before_add, self.nodes@);
                        lemma_visits_trans(mid.nodes@, before_add, self.nodes@);
                        lemma_visits_at_same_then(mid.nodes@, before_add, self.nodes@, r0 as int);
                        lemma_counts_at_then(old(self).nodes@, before_add, self.nodes@, r0 as int);
                    }
                    match res {
                        None => {
                            proof {
                                Self::lemma_root_visits(*old(self), *self);
                                Self::lemma_root_counts(*old(self), *self);
                                Self::lemma_step_progress(*old(self), mid, *self);
                            }
                            return None;
                        },
                        Some(()) => {},
                    }
                    node = next;
                },
                None => {
                    break;
                },
            }
        }
        let solutions = board.solutionset();
        if !solutions.check_counts() {
            proof {
                Self::lemma_root_visits(*old(self), *self);
                Self::lemma_root_counts(*old(self), *self);
                Self::lemma_step_progress(*old(self), mid, *self);
            }
            return None;
        }
        let new_node = Node::new(&solutions);
        let idx = self.nodes.len();
        let ghost before = self.nodes@;
        self.nodes.push(new_node);
        proof {
            assert forall|i: int, j: int|
                #![trigger self.nodes@[i].children@[j]]
                0 <= i < before.len() && 0 <= j < before[i].children@.len() implies self.nodes@[i].children@[j].1
                >= before[i].children@[j].1 by {
                assert(self.nodes@[i] == before[i]);
            }
            assert forall|i: int| 0 <= i < before.len() implies (#[trigger] self.nodes@[i]).children@.len()
                == before[i].children@.len() by {
                assert(self.nodes@[i] == before[i]);
            }
            assert(visits_kept(before, self.nodes@));
            lemma_visits_trans(old(self).nodes@, before, self.nodes@);
            lemma_visits_trans(mid.nodes@, before, self.nodes@);
            assert forall|i: int| 0 <= i < self.nodes@.len() implies node_wf(#[trigger] self.nodes@[i], n, self.nodes@.len()) by {
                if i < before.len() {
                    assert(self.nodes@[i] == before[i]);
                    assert(node_wf(before[i], n, before.len()));
                }
            }
            assert(self.nodes@[r0 as int] == before[r0 as int]);
            assert forall|j: int| 0 <= j < mid.nodes@[r0 as int].children@.len() implies
                #[trigger] self.nodes@[r0 as int].children@[j].1 == mid.nodes@[r0 as int].children@[j].1 by {
                assert(before[r0 as int].children@[j].1 == mid.nodes@[r0 as int].children@[j].1);
            }
            assert(visits_at_same(mid.nodes@, self.nodes@, r0 as int));
            assert(counts_at_lowered(old(self).nodes@, self.nodes@, r0 as int)) by {
                assert forall|j: int| 0 <= j < old(self).nodes@[r0 as int].children@.len() implies
                    #[trigger] self.nodes@[r0 as int].children@[j].0@ <= old(self).nodes@[r0 as int].children@[j].0@ by {
                    assert(before[r0 as int].children@[j].0@ <= old(self).nodes@[r0 as int].children@[j].0@);
                }
            }
        }
        let ghost before_add = self.nodes@;
        let res = self.add_parent(idx, node, tile);
        proof {
            lemma_same_is_kept(before_add, self.nodes@);
            lemma_visits_trans(old(self).nodes@, before_add, self.nodes@);
            lemma_visits_trans(mid.nodes@, before_add, self.nodes@);
            lemma_visits_at_same_then(mid.nodes@, before_add, self.nodes@, r0 as int);
            lemma_counts_at_then(old(self).nodes@, before_add, self.nodes@, r0 as int);
        }
        match res {
            None => {
                proof {
                    Self::lemma_root_visits(*old(self), *self);
                    Self::lemma_root_counts(*old(self), *self);
                    Self::lemma_step_progress(*old(self), mid, *self);
                }
                return None;
            },
            Some(()) => {},
        }
        let key = board.normalize();
        let ghost map0 = self.map@;
        self.map.push((key, idx));
        proof {
            assert(idx >= old(self).nodes@.len());
            assert forall|e1: int, e2: int| 0 <= e1 < self.map@.len() && 0 <= e2 < self.map@.len() && e1 != e2 implies
                #[trigger] self.map@[e1].1 != #[trigger] self.map@[e2].1 by {
                if e1 < map0.len() {
                    assert(self.map@[e1] == map0[e1]);
                    assert(old(self).map@[e1].1 < old(self).nodes@.len());
                }
                if e2 < map0.len() {
                    assert(self.map@[e2] == map0[e2]);
                    assert(old(self).map@[e2].1 < old(self).nodes@.len());
                }
            }
            let g = normalized_grid(self.root.grid@);
            let m = (self.root.num_mines - tile_count(self.root.grid@, true)) as nat;
            if lookup_from(map0, g, m, 0) is Some {
                lemma_lookup_push(map0, (key, idx), g, m, 0);
            }
            Self::lemma_root_visits(*old(self), *self);
            Self::lemma_root_counts(*old(self), *self);
            Self::lemma_step_progress(*old(self), mid, *self);
        }
        Some(())
    }
}

/// The root's tiles after one round of the search: the tile the round starts with
/// (`search_choice`) gains one visit when some placement leaves it safe and its visit count can
/// still grow; no other tile gains any, and no count of safe placements grows.
pub open spec fn search_round(a: Seq<(nat, nat)>, b: Seq<(nat, nat)>) -> bool {
    &&& b.len() == a.len()
    &&& forall|j: int| 0 <= j < a.len() ==> #[trigger] b[j].1 <= a[j].1
    &&& forall|j: int| 0 <= j < a.len() ==> #[trigger] b[j].0 == a[j].0 + (if j == search_choice(a) && a[j].1 > 0
        && a[j].0 < usize::MAX {
        1int
    } else {
        0int
    })
}

/// For each of the first `n` tiles, its number of placements in which it is safe.
pub open spec fn safe_counts(ss: MineArrangements, n: nat) -> Seq<nat> {
    Seq::new(n, |j: int| ss.spec_tile_safe_solutions()[j])
}

/// The root's tiles after `rounds.len() - 1` rounds, each round's visits following the one
/// before (`search_round`), starting with no visit and each tile's count of safe placements.
pub open spec fn search_rounds(rounds: Seq<Seq<(nat, nat)>>, start: Seq<nat>) -> bool {
    &&& rounds.len() >= 1
    &&& rounds[0] == Seq::new(start.len(), |j: int| (0nat, start[j]))
    &&& forall|i: int| 0 <= i < rounds.len() - 1 ==> search_round(#[trigger] rounds[i], rounds[i + 1])
}

/// Along the rounds of a search from counts with a positive entry: every tile keeps at most
/// its first count, only tiles with a positive first count have visits, and from the first
/// round on some tile has one.
proof fn lemma_rounds_visits(rounds: Seq<Seq<(nat, nat)>>, start: Seq<nat>, k: int, j: int)
    requires
        search_rounds(rounds, start),
        0 <= k < rounds.len(),
        0 <= j < start.len(),
        start[j] > 0,
    ensures
        rounds[k].len() == start.len(),
        forall|t: int| 0 <= t < start.len() ==> #[trigger] rounds[k][t].1 <= start[t] && (rounds[k][t].0 > 0 ==> start[t] > 0),
        k >= 1 ==> exists|t: int| 0 <= t < start.len() && (#[trigger] rounds[k][t]).0 > 0,
    decreases k,
{
    if k > 0 {
        lemma_rounds_visits(rounds, start, k - 1, j);
        let a = rounds[k - 1];
        let b = rounds[k];
        assert(search_round(a, b));
        assert forall|t: int| 0 <= t < start.len() implies #[trigger] b[t].1 <= start[t] && (b[t].0 > 0 ==> start[t] > 0) by {
            assert(b[t].1 <= a[t].1);
            assert(b[t].0 == a[t].0 + (if t == search_choice(a) && a[t].1 > 0 && a[t].0 < usize::MAX {
                1int
            } else {
                0int
            }));
        }
        if k == 1 {
            let cs = Seq::new(a.len(), |t: int| a[t].1);
            assert(cs =~= start);
            lemma_last_max_top(cs);
            lemma_last_max_index(cs);
            let c = search_choice(a);
            assert(start[j] <= start[c]);
            assert(b[c].0 == a[c].0 + 1);
        } else {
            let t = choose|t: int| 0 <= t < start.len() && (#[trigger] a[t]).0 > 0;
            assert(b[t].0 >= a[t].0);
        }
    }
}

/// A search that played a round answers a tile that some placement leaves safe, whenever some
/// tile is: visits go only to tiles with a positive count, and counts never grow.
pub proof fn law_search_answer_can_be_safe(rounds: Seq<Seq<(nat, nat)>>, start: Seq<nat>, j: int)
    requires
        search_rounds(rounds, start),
        rounds.len() >= 2,
        0 <= j < start.len(),
        start[j] > 0,
    ensures
        start[last_lex_max_index(rounds.last())] > 0,
{
    let k = rounds.len() - 1;
    lemma_rounds_visits(rounds, start, k, j);
    let v = rounds.last();
    assert(v == rounds[k]);
    let t = choose|t: int| 0 <= t < start.len() && (#[trigger] rounds[k][t]).0 > 0;
    lemma_last_lex_max_top(v);
    let m = last_lex_max_index(v);
    lemma_last_lex_max_index(v);
    assert(v[t].0 <= v[m].0);
    assert(rounds[k][m].1 <= start[m]);
    assert(v[m].0 > 0);
}

/// With no tile tried yet, the tile tried most often is the last of those with the largest
/// count.
proof fn lemma_zero_visits_choice(v: Seq<(nat, nat)>, counts: Seq<nat>)
    requires
        v.len() == counts.len(),
        forall|j: int| 0 <= j < v.len() ==> (#[trigger] v[j]).0 == 0 && v[j].1 == counts[j],
    ensures
        last_lex_max_index(v) == last_max_index(counts),
    decreases v.len(),
{
    if v.len() > 1 {
        lemma_zero_visits_choice(v.drop_last(), counts.drop_last());
        lemma_last_max_index(counts.drop_last());
        assert(v.drop_last()[last_lex_max_index(v.drop_last())] == v[last_lex_max_index(v.drop_last())]);
    }
}

/// The tile a search of up to `num_steps` rounds from `board`, whose arrangements of the
/// remaining mines are `solutions`, finds best: the tile of the root with the most visits
/// after the rounds (ties going to the larger count of safe placements, then to the later
/// tile), where each round adds one visit to the tile it starts with. The search stops early
/// when a round fails, and answers from the rounds done. `None` exactly when the placement
/// counts do not fit the `u64` arithmetic used to compute them.
pub fn search_with_solutions<G: Graph>(num_steps: usize, board: Board<G>, solutions: MineArrangements) -> (r: Option<usize>)
    requires
        searchable(board),
        board.arrangements_of(solutions),
    ensures
        (r is None) == !solutions.counts_ok(),
        r is Some ==> r->0 < board.grid@.len(),
        r is Some ==> exists|rounds: Seq<Seq<(nat, nat)>>|
            #[trigger] search_rounds(rounds, safe_counts(solutions, board.grid@.len())) && rounds.len() <= num_steps + 1
                && r->0 == last_lex_max_index(rounds.last()),
        num_steps == 0 && r is Some ==> r->0 == last_max_index(safe_counts(solutions, board.grid@.len())),
        r is Some && (exists|j: int| 0 <= j < board.grid@.len() && #[trigger] solutions.spec_tile_safe_solutions()[j] > 0)
            ==> solutions.spec_tile_safe_solutions()[r->0 as int] > 0,
{
    let ghost len = board.grid@.len();
    let ghost b0 = board;
    let ghost ss = solutions;
    let mut tree = match Tree::from_solutions(board, solutions) {
        Some(t) => t,
        None => {
            return None;
        },
    };
    let ghost tree0 = tree;
    let ghost start = safe_counts(ss, len);
    let ghost mut rounds: Seq<Seq<(nat, nat)>> = seq![tree.spec_root_children()->0];
    proof {
        assert(rounds[0] =~= Seq::new(start.len(), |j: int| (0nat, start[j])));
    }
    let mut i: usize = 0;
    while i < num_steps
        invariant_except_break
            i == 0 ==> tree == tree0,
            rounds.len() == i + 1,
        invariant
            tree.wf(),
            tree.spec_root().grid@.len() == len,
            i <= num_steps,
            tree.spec_root_children() is Some,
            search_rounds(rounds, start),
            start.len() == len,
            rounds.len() <= i + 2,
            rounds.len() >= i + 1,
            rounds.last() == tree.spec_root_children()->0,
            tree.spec_root_children()->0.len() == len,
        ensures
            num_steps >= 1 ==> rounds.len() >= 2,
            tree.spec_root_children()->0.len() == len,
            tree.wf(),
            tree.spec_root().grid@.len() == len,
            tree.spec_root_children() is Some,
            num_steps == 0 ==> tree == tree0,
            search_rounds(rounds, start),
            rounds.len() <= num_steps + 1,
            rounds.last() == tree.spec_root_children()->0,
        decreases num_steps - i,
    {
        let ghost v0 = tree.spec_root_children()->0;
        let ghost t_before = tree;
        let res = tree.step();
        proof {
            let v1 = tree.spec_root_children()->0;
            assert(search_round(v0, v1)) by {
                let c = search_choice(v0);
                if v0.len() > 0 && v0[c].1 > 0 && v0[c].0 < usize::MAX {
                } else {
                    if v0.len() > 0 && v0[c].1 > 0 {
                        lemma_last_max_index(Seq::new(v0.len(), |j: int| v0[j].1));
                        assert(v0[c].0 <= usize::MAX) by {
                            t_before.lemma_root_visit_bound(c);
                        }
                    }
                    assert(tree == t_before);
                }
            }
            let r0 = rounds;
            rounds = rounds.push(v1);
            assert forall|k: int| 0 <= k < rounds.len() - 1 implies search_round(#[trigger] rounds[k], rounds[k + 1]) by {
                if k < r0.len() - 1 {
                    assert(rounds[k] == r0[k]);
                    assert(rounds[k + 1] == r0[k + 1]);
                }
            }
        }
        match res {
            None => {
                break;
            },
            Some(()) => {},
        }
        i = i + 1;
    }
    let r = tree.best_move();
    proof {
        if num_steps == 0 {
            let v = tree.spec_root_children()->0;
            lemma_zero_visits_choice(v, start);
            lemma_last_max_index(start);
        }
        if r is Some {
            assert(rounds.last().len() > 0);
            lemma_last_lex_max_index(rounds.last());
            assert(r->0 == last_lex_max_index(rounds.last()));
            assert(search_rounds(rounds, safe_counts(ss, b0.grid@.len())));
            if exists|j: int| 0 <= j < len && #[trigger] ss.spec_tile_safe_solutions()[j] > 0 {
                let j = choose|j: int| 0 <= j < len && #[trigger] ss.spec_tile_safe_solutions()[j] > 0;
                assert(start[j] > 0);
                if num_steps == 0 {
                    lemma_last_max_top(start);
                    assert(start[j] <= start[r->0 as int]);
                } else {
                    law_search_answer_can_be_safe(rounds, start, j);
                }
            }
        }
    }
    r
}

/// The tile a search of up to `num_steps` rounds from `board` finds best
/// (`search_with_solutions` on the arrangements of the board's remaining mines). `None`
/// exactly when the placement counts of those arrangements do not fit the `u64` arithmetic
/// used to compute them.
pub fn search_fn<G: Graph>(num_steps: usize, board: Board<G>) -> (r: Option<usize>)
    requires
        searchable(board),
    ensures
        r is Some ==> r->0 < board.grid@.len(),
        exists|ss: MineArrangements| #[trigger] board.arrangements_of(ss) && {
            &&& (r is None) == !ss.counts_ok()
            &&& r is Some ==> exists|rounds: Seq<Seq<(nat, nat)>>|
                #[trigger] search_rounds(rounds, safe_counts(ss, board.grid@.len())) && rounds.len() <= num_steps + 1
                    && r->0 == last_lex_max_index(rounds.last())
            &&& num_steps == 0 && r is Some ==> r->0 == last_max_index(safe_counts(ss, board.grid@.len()))
            &&& r is Some && (exists|j: int| 0 <= j < board.grid@.len() && #[trigger] ss.spec_tile_safe_solutions()[j] > 0)
                ==> ss.spec_tile_safe_solutions()[r->0 as int] > 0
        },
{
    let solutions = board.solutionset();
    let ghost ss = solutions;
    let r = search_with_solutions(num_steps, board, solutions);
    proof {
        assert(board.arrangements_of(ss));
    }
    r
}

} // verus!
