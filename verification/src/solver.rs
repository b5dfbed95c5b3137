use vstd::prelude::*;
use crate::board::{
    lemma_shift_kind, Board, spec_is_grid_subset_of, Tile, counters_consistent, symmetric_graph, degrees_fit, tile_count, nbr_count, is_kind, occ, shift_fits,
    shift_hint, shifted, flagged_grid, placed_grid, cleared_grid, asserted_grid, clear_fits, place_fits, signed_count,
    law_flag_keeps_counters, law_place_keeps_counters, law_consistent_ops_fit, law_clear_keeps_counters,
    law_assert_keeps_counters, lemma_occ_step, lemma_occ_prefix, lemma_count_change, lemma_count_bounds,
    lemma_tile_count_step, lemma_tile_count_prefix,
};
use crate::graph::{Graph, same_graph_as};
use crate::game::{Game, mine_count};
use crate::bits::{lemma_ones_of, true_count};
use crate::arrangements::{distinct_neighbors, undecided_neighbors, hint_needs, overlap_count, mines_of, MineArrangements};

verus! {

// ---------------------------------------------------------------------------------------------
// Progress

/// What a tile weighs in the solver's progress measure: an undecided tile 3, a tile still to be
/// propagated 1, any other 0.
pub open spec fn tile_weight(t: Tile) -> nat {
    match t {
        Tile::Empty => 3,
        Tile::Mine { needs_propogate } => if needs_propogate { 1 } else { 0 },
        Tile::AssertHint { needs_propogate } => if needs_propogate { 1 } else { 0 },
        Tile::Hint { .. } => 0,
    }
}

/// The total weight of a grid; every step of the solver that changes the board lowers it.
pub open spec fn potential(grid: Seq<Tile>) -> nat
    decreases grid.len(),
{
    if grid.len() == 0 {
        0
    } else {
        potential(grid.drop_last()) + tile_weight(grid.last())
    }
}

pub(crate) proof fn lemma_potential_update(grid: Seq<Tile>, t: int, x: Tile)
    requires
        0 <= t < grid.len(),
    ensures
        potential(grid.update(t, x)) + tile_weight(grid[t]) == potential(grid) + tile_weight(x),
    decreases grid.len(),
{
    let u = grid.update(t, x);
    if t == grid.len() - 1 {
        assert(u.drop_last() =~= grid.drop_last());
    } else {
        assert(u.drop_last() =~= grid.drop_last().update(t, x));
        lemma_potential_update(grid.drop_last(), t, x);
    }
}

proof fn lemma_potential_same_weights(a: Seq<Tile>, b: Seq<Tile>)
    requires
        a.len() == b.len(),
        forall|i: int| 0 <= i < a.len() ==> tile_weight(#[trigger] a[i]) == tile_weight(b[i]),
    ensures
        potential(a) == potential(b),
    decreases a.len(),
{
    if a.len() > 0 {
        lemma_potential_same_weights(a.drop_last(), b.drop_last());
    }
}

/// Moving hint counters leaves the weight alone.
pub(crate) proof fn lemma_potential_shifted(grid: Seq<Tile>, nbrs: Seq<usize>, drm: int, de: int)
    ensures
        potential(shifted(grid, nbrs, drm, de)) == potential(grid),
{
    lemma_potential_same_weights(shifted(grid, nbrs, drm, de), grid);
}

/// A list with a positive count of tiles of a kind lists such a tile.
proof fn lemma_count_pos(grid: Seq<Tile>, s: Seq<usize>, mine: bool)
    requires
        nbr_count(grid, s, mine) > 0,
    ensures
        exists|q: int| 0 <= q < s.len() && is_kind(#[trigger] grid[s[q] as int], mine),
    decreases s.len(),
{
    if !is_kind(grid[s.last() as int], mine) {
        lemma_count_pos(grid, s.drop_last(), mine);
        let q = choose|q: int| 0 <= q < s.drop_last().len() && is_kind(#[trigger] grid[s.drop_last()[q] as int], mine);
        assert(s[q] == s.drop_last()[q]);
    } else {
        assert(s[s.len() - 1] == s.last());
    }
}

/// Changing one tile to another of the same kind (mine, undecided or other) keeps the counters
/// of the other tiles consistent.
proof fn lemma_same_kind_consistent<G: Graph>(grid: Seq<Tile>, graph: G, t: int, x: Tile)
    requires
        graph.graph_wf(),
        grid.len() == graph.spec_num_tiles(),
        0 <= t < grid.len(),
        counters_consistent(grid, graph),
        is_kind(grid[t], true) == is_kind(x, true),
        is_kind(grid[t], false) == is_kind(x, false),
        !(x is Hint),
    ensures
        counters_consistent(grid.update(t, x), graph),
{
    let g2 = grid.update(t, x);
    assert forall|i: int| 0 <= i < g2.len() implies match #[trigger] g2[i] {
        Tile::Hint { hint, remaining_mines, empties } => empties == nbr_count(g2, graph.spec_neighbors(i), false)
            && hint == remaining_mines + nbr_count(g2, graph.spec_neighbors(i), true),
        _ => true,
    } by {
        if i != t && grid[i] is Hint {
            let ni = graph.spec_neighbors(i);
            graph.lemma_neighbors_in_range(i);
            assert(crate::board::in_grid(grid, ni));
            lemma_count_change(grid, g2, ni, t, true);
            lemma_count_change(grid, g2, ni, t, false);
        }
    }
}

// ---------------------------------------------------------------------------------------------
// Soundness of the deductions

/// The board agrees with a placement of mines: flagged tiles hold mines, asserted and
/// uncovered tiles do not, and each hint counts the mines among its neighbours.
pub open spec fn agrees_with<G: Graph>(grid: Seq<Tile>, graph: G, mines: Seq<bool>) -> bool {
    &&& mines.len() == grid.len()
    &&& forall|t: int|
        0 <= t < grid.len() ==> match #[trigger] grid[t] {
            Tile::Mine { .. } => mines[t],
            Tile::AssertHint { .. } => !mines[t],
            Tile::Hint { hint, .. } => !mines[t] && hint == mine_count(mines, graph.spec_neighbors(t)),
            Tile::Empty => true,
        }
}

/// How many entries of the list point at an undecided tile that holds a mine.
pub open spec fn empty_mines(grid: Seq<Tile>, mines: Seq<bool>, s: Seq<usize>) -> nat
    decreases s.len(),
{
    if s.len() == 0 {
        0
    } else {
        empty_mines(grid, mines, s.drop_last()) + if grid[s.last() as int] is Empty && mines[s.last() as int] {
            1nat
        } else {
            0nat
        }
    }
}

/// Where flagged tiles hold mines and decided safe tiles do not, the mines that a list of
/// neighbours counts are its flagged ones and its undecided ones that hold mines.
proof fn lemma_mine_split(grid: Seq<Tile>, mines: Seq<bool>, s: Seq<usize>)
    requires
        forall|k: int| 0 <= k < s.len() ==> #[trigger] s[k] < grid.len(),
        mines.len() == grid.len(),
        forall|t: int| 0 <= t < grid.len() ==> (#[trigger] grid[t] is Mine ==> mines[t]) && ((grid[t] is Hint
            || grid[t] is AssertHint) ==> !mines[t]),
    ensures
        mine_count(mines, s) == nbr_count(grid, s, true) + empty_mines(grid, mines, s),
        empty_mines(grid, mines, s) <= nbr_count(grid, s, false),
    decreases s.len(),
{
    if s.len() > 0 {
        lemma_mine_split(grid, mines, s.drop_last());
        let t = s.last() as int;
        assert(s[s.len() - 1] < grid.len());
        assert(grid[t] is Mine ==> mines[t]);
    }
}

/// A list with no undecided mined entry has none among its undecided entries.
proof fn lemma_no_empty_mines(grid: Seq<Tile>, mines: Seq<bool>, s: Seq<usize>)
    requires
        empty_mines(grid, mines, s) == 0,
    ensures
        forall|k: int| 0 <= k < s.len() && #[trigger] grid[s[k] as int] is Empty ==> !mines[s[k] as int],
    decreases s.len(),
{
    if s.len() > 0 {
        lemma_no_empty_mines(grid, mines, s.drop_last());
        assert forall|k: int| 0 <= k < s.len() && #[trigger] grid[s[k] as int] is Empty implies !mines[s[k] as int] by {
            if k < s.len() - 1 {
                assert(s.drop_last()[k] == s[k]);
            }
        }
    }
}

/// A list whose undecided entries all count as mined has a mine at each of them.
proof fn lemma_all_empty_mines(grid: Seq<Tile>, mines: Seq<bool>, s: Seq<usize>)
    requires
        empty_mines(grid, mines, s) == nbr_count(grid, s, false),
    ensures
        forall|k: int| 0 <= k < s.len() && #[trigger] grid[s[k] as int] is Empty ==> mines[s[k] as int],
    decreases s.len(),
{
    if s.len() > 0 {
        let p = s.drop_last();
        lemma_empty_mines_le(grid, mines, p);
        lemma_all_empty_mines(grid, mines, p);
        assert forall|k: int| 0 <= k < s.len() && #[trigger] grid[s[k] as int] is Empty implies mines[s[k] as int] by {
            if k < s.len() - 1 {
                assert(p[k] == s[k]);
            }
        }
    }
}

proof fn lemma_empty_mines_le(grid: Seq<Tile>, mines: Seq<bool>, s: Seq<usize>)
    ensures
        empty_mines(grid, mines, s) <= nbr_count(grid, s, false),
    decreases s.len(),
{
    if s.len() > 0 {
        lemma_empty_mines_le(grid, mines, s.drop_last());
    }
}

/// On a board with consistent counters that agrees with a placement of mines, a hint whose
/// mines are all flagged has no mine among its undecided neighbours: uncovering them is safe.
pub proof fn law_hint_fill_sound<G: Graph>(grid: Seq<Tile>, graph: G, mines: Seq<bool>, loc: int)
    requires
        graph.graph_wf(),
        grid.len() == graph.spec_num_tiles(),
        0 <= loc < grid.len(),
        counters_consistent(grid, graph),
        agrees_with(grid, graph, mines),
        grid[loc].spec_needs_hint_fill(),
    ensures
        forall|k: int|
            0 <= k < graph.spec_neighbors(loc).len() && #[trigger] grid[graph.spec_neighbors(loc)[k] as int] is Empty
                ==> !mines[graph.spec_neighbors(loc)[k] as int],
{
    let s = graph.spec_neighbors(loc);
    graph.lemma_neighbors_in_range(loc);
    assert forall|t: int| 0 <= t < grid.len() implies (#[trigger] grid[t] is Mine ==> mines[t]) && ((grid[t] is Hint
        || grid[t] is AssertHint) ==> !mines[t]) by {}
    lemma_mine_split(grid, mines, s);
    lemma_no_empty_mines(grid, mines, s);
}

/// On a board with consistent counters that agrees with a placement of mines, a hint whose
/// remaining mines are as many as its undecided neighbours has a mine at each of them:
/// flagging them is right.
pub proof fn law_flag_fill_sound<G: Graph>(grid: Seq<Tile>, graph: G, mines: Seq<bool>, loc: int)
    requires
        graph.graph_wf(),
        grid.len() == graph.spec_num_tiles(),
        0 <= loc < grid.len(),
        counters_consistent(grid, graph),
        agrees_with(grid, graph, mines),
        grid[loc].spec_needs_flag_fill(),
    ensures
        forall|k: int|
            0 <= k < graph.spec_neighbors(loc).len() && #[trigger] grid[graph.spec_neighbors(loc)[k] as int] is Empty
                ==> mines[graph.spec_neighbors(loc)[k] as int],
{
    let s = graph.spec_neighbors(loc);
    graph.lemma_neighbors_in_range(loc);
    assert forall|t: int| 0 <= t < grid.len() implies (#[trigger] grid[t] is Mine ==> mines[t]) && ((grid[t] is Hint
        || grid[t] is AssertHint) ==> !mines[t]) by {}
    lemma_mine_split(grid, mines, s);
    lemma_all_empty_mines(grid, mines, s);
}

/// The mines of a placement that lie on undecided tiles.
pub open spec fn undecided_part(grid: Seq<Tile>, mines: Seq<bool>) -> Seq<bool> {
    Seq::new(grid.len(), |t: int| grid[t] is Empty && mines[t])
}

/// The flagged tiles are as many as the board's tiles that hold mines.
proof fn lemma_tile_count_mines(grid: Seq<Tile>)
    ensures
        tile_count(grid, true) == true_count(mines_of(grid)),
    decreases grid.len(),
{
    if grid.len() > 0 {
        lemma_tile_count_mines(grid.drop_last());
        assert(mines_of(grid).drop_last() =~= mines_of(grid.drop_last()));
    }
}

/// Over a list that names no tile twice, the entries that point at an undecided tile holding a
/// mine are the undecided tiles of the list holding mines.
proof fn lemma_empty_mines_set(grid: Seq<Tile>, mines: Seq<bool>, s: Seq<usize>)
    requires
        s.no_duplicates(),
        mines.len() == grid.len(),
        grid.len() <= usize::MAX,
        forall|k: int| 0 <= k < s.len() ==> #[trigger] s[k] < grid.len(),
    ensures
        empty_mines(grid, mines, s) == true_count(
            Seq::new(grid.len(), |t: int| grid[t] is Empty && mines[t] && s.contains(t as usize)),
        ),
    decreases s.len(),
{
    let n = grid.len();
    let cur = Seq::new(n, |t: int| grid[t] is Empty && mines[t] && s.contains(t as usize));
    if s.len() == 0 {
        crate::bits::lemma_true_count_zero(cur);
    } else {
        let p = s.drop_last();
        let x = s.last();
        assert(p.no_duplicates()) by {
            assert forall|a: int, b: int| 0 <= a < p.len() && 0 <= b < p.len() && a != b implies p[a] != p[b] by {
                assert(s[a] == p[a] && s[b] == p[b]);
            }
        }
        lemma_empty_mines_set(grid, mines, p);
        let prev = Seq::new(n, |t: int| grid[t] is Empty && mines[t] && p.contains(t as usize));
        assert(!p.contains(x)) by {
            if p.contains(x) {
                let k = choose|k: int| 0 <= k < p.len() && p[k] == x;
                assert(s[k] == s[s.len() - 1]);
            }
        }
        assert forall|t: int| 0 <= t < n && t != x implies cur[t] == prev[t] by {
            if s.contains(t as usize) {
                let k = choose|k: int| 0 <= k < s.len() && s[k] == t as usize;
                assert(k != s.len() - 1);
                assert(p[k] == t as usize);
            }
            if p.contains(t as usize) {
                let k = choose|k: int| 0 <= k < p.len() && p[k] == t as usize;
                assert(s[k] == t as usize);
            }
        }
        assert(s[s.len() - 1] == x);
        assert(s.contains(x));
        if grid[x as int] is Empty && mines[x as int] {
            crate::bits::lemma_true_count_one_change(prev, cur, x as int);
        } else {
            assert(cur =~= prev);
        }
    }
}

/// A placement of all the mines that agrees with the board places the remaining mines on the
/// undecided tiles as every hint needs, when no neighbour list repeats a tile: it is a
/// consistent placement of the board.
pub proof fn law_agreeing_placement_consistent<G: Graph>(board: Board<G>, mines: Seq<bool>)
    requires
        board.arrangements_ready(),
        counters_consistent(board.grid@, board.graph),
        distinct_neighbors(board.graph),
        agrees_with(board.grid@, board.graph, mines),
        true_count(mines) == board.num_mines,
    ensures
        board.consistent_placement(undecided_part(board.grid@, mines)),
{
    let grid = board.grid@;
    let graph = board.graph;
    let n = grid.len();
    let p = undecided_part(grid, mines);
    // the mines are the flagged tiles and the undecided ones
    assert(mines =~= Seq::new(n, |t: int| mines_of(grid)[t] || p[t])) by {
        assert forall|t: int| 0 <= t < n implies mines[t] == (mines_of(grid)[t] || p[t]) by {
            match grid[t] {
                Tile::Mine { .. } => {},
                Tile::AssertHint { .. } => {},
                Tile::Hint { .. } => {},
                Tile::Empty => {},
            }
        }
    }
    assert forall|t: int| 0 <= t < n implies !(#[trigger] mines_of(grid)[t] && p[t]) by {}
    crate::combinations::lemma_true_count_disjoint_or(mines_of(grid), p);
    lemma_tile_count_mines(grid);
    assert forall|t: int| 0 <= t < grid.len() implies (#[trigger] grid[t] is Mine ==> mines[t]) && ((grid[t] is Hint
        || grid[t] is AssertHint) ==> !mines[t]) by {}
    assert forall|h: int, num: nat| 0 <= h < n && #[trigger] hint_needs(grid[h], num) implies overlap_count(
        p,
        undecided_neighbors(grid, graph, h),
    ) == num by {
        let s = graph.spec_neighbors(h);
        graph.lemma_neighbors_in_range(h);
        lemma_mine_split(grid, mines, s);
        lemma_empty_mines_set(grid, mines, s);
        assert(Seq::new(p.len(), |t: int| p[t] && undecided_neighbors(grid, graph, h)[t]) =~= Seq::new(
            n,
            |t: int| grid[t] is Empty && mines[t] && s.contains(t as usize),
        ));
    }
}

// ---------------------------------------------------------------------------------------------
// Moves on a board that agrees with the game's mines

/// A list counts an undecided tile among its undecided entries, and among its undecided entries
/// holding mines when the tile holds one, as often as it lists it.
proof fn lemma_undecided_occ(grid: Seq<Tile>, mines: Seq<bool>, s: Seq<usize>, t: int)
    requires
        0 <= t < grid.len(),
        grid[t] is Empty,
        mines.len() == grid.len(),
    ensures
        nbr_count(grid, s, false) >= occ(s, t),
        mines[t] ==> empty_mines(grid, mines, s) >= occ(s, t),
    decreases s.len(),
{
    if s.len() > 0 {
        lemma_undecided_occ(grid, mines, s.drop_last(), t);
    }
}

/// Moving hint counters keeps a board's agreement with a placement.
proof fn lemma_agrees_shifted<G: Graph>(grid: Seq<Tile>, graph: G, mines: Seq<bool>, nbrs: Seq<usize>, drm: int, de: int)
    requires
        agrees_with(grid, graph, mines),
    ensures
        agrees_with(shifted(grid, nbrs, drm, de), graph, mines),
{
    let g = shifted(grid, nbrs, drm, de);
    assert forall|t: int| 0 <= t < g.len() implies match #[trigger] g[t] {
        Tile::Mine { .. } => mines[t],
        Tile::AssertHint { .. } => !mines[t],
        Tile::Hint { hint, .. } => !mines[t] && hint == mine_count(mines, graph.spec_neighbors(t)),
        Tile::Empty => true,
    } by {
        assert(g[t] == shift_hint(grid[t], signed_count(drm, occ(nbrs, t)), signed_count(de, occ(nbrs, t))));
        match grid[t] {
            Tile::Mine { .. } => {},
            Tile::AssertHint { .. } => {},
            Tile::Hint { .. } => {},
            Tile::Empty => {},
        }
    }
}

/// Uncovering an undecided tile without a mine, on a board that agrees with the mines: the hint
/// the mines give fits the board, and the board with it placed still agrees with them.
proof fn lemma_place_agrees<G: Graph>(grid: Seq<Tile>, graph: G, mines: Seq<bool>, t: int)
    requires
        graph.graph_wf(),
        grid.len() == graph.spec_num_tiles(),
        degrees_fit(graph),
        agrees_with(grid, graph, mines),
        0 <= t < grid.len(),
        grid[t] is Empty,
        !mines[t],
    ensures
        mine_count(mines, graph.spec_neighbors(t)) <= u8::MAX,
        placed_grid(grid, graph.spec_neighbors(t), t, mine_count(mines, graph.spec_neighbors(t)) as u8).0 is Some,
        agrees_with(
            placed_grid(grid, graph.spec_neighbors(t), t, mine_count(mines, graph.spec_neighbors(t)) as u8).1,
            graph,
            mines,
        ),
{
    let s = graph.spec_neighbors(t);
    graph.lemma_neighbors_in_range(t);
    crate::game::lemma_mine_count_le(mines, s);
    assert forall|i: int| 0 <= i < grid.len() implies (#[trigger] grid[i] is Mine ==> mines[i]) && ((grid[i] is Hint
        || grid[i] is AssertHint) ==> !mines[i]) by {}
    lemma_mine_split(grid, mines, s);
    let h = mine_count(mines, s) as u8;
    lemma_agrees_shifted(grid, graph, mines, s, 0, -1);
    let g = shifted(grid, s, 0, -1);
    let pg = placed_grid(grid, s, t, h);
    assert(pg.1 == g.update(t, Tile::Hint {
        hint: h,
        remaining_mines: (h - nbr_count(grid, s, true)) as u8,
        empties: nbr_count(grid, s, false) as u8,
    }));
    assert forall|i: int| 0 <= i < pg.1.len() implies match #[trigger] pg.1[i] {
        Tile::Mine { .. } => mines[i],
        Tile::AssertHint { .. } => !mines[i],
        Tile::Hint { hint, .. } => !mines[i] && hint == mine_count(mines, graph.spec_neighbors(i)),
        Tile::Empty => true,
    } by {
        if i != t {
            assert(pg.1[i] == g[i]);
        }
    }
}

/// Flagging an undecided tile that holds a mine, on a board that agrees with the mines: the
/// counters stay in range, and the flagged board still agrees with them.
proof fn lemma_flag_agrees<G: Graph>(grid: Seq<Tile>, graph: G, mines: Seq<bool>, t: int)
    requires
        graph.graph_wf(),
        grid.len() == graph.spec_num_tiles(),
        symmetric_graph(graph),
        counters_consistent(grid, graph),
        agrees_with(grid, graph, mines),
        0 <= t < grid.len(),
        grid[t] is Empty,
        mines[t],
    ensures
        shift_fits(grid, graph.spec_neighbors(t), -1, -1),
        agrees_with(flagged_grid(grid, graph.spec_neighbors(t), t), graph, mines),
{
    let s = graph.spec_neighbors(t);
    assert forall|i: int| 0 <= i < grid.len() implies (#[trigger] grid[i] is Mine ==> mines[i]) && ((grid[i] is Hint
        || grid[i] is AssertHint) ==> !mines[i]) by {}
    assert forall|i: int| 0 <= i < grid.len() implies match #[trigger] grid[i] {
        Tile::Hint { remaining_mines, empties, .. } => 0 <= remaining_mines + signed_count(-1, occ(s, i)) <= u8::MAX
            && 0 <= empties + signed_count(-1, occ(s, i)) <= u8::MAX,
        _ => true,
    } by {
        if grid[i] is Hint {
            let si = graph.spec_neighbors(i);
            graph.lemma_neighbors_in_range(i);
            assert(occ(s, i) == occ(si, t));
            lemma_mine_split(grid, mines, si);
            lemma_undecided_occ(grid, mines, si, t);
        }
    }
    lemma_agrees_shifted(grid, graph, mines, s, -1, -1);
    let g = shifted(grid, s, -1, -1);
    let fg = flagged_grid(grid, s, t);
    assert forall|i: int| 0 <= i < fg.len() implies match #[trigger] fg[i] {
        Tile::Mine { .. } => mines[i],
        Tile::AssertHint { .. } => !mines[i],
        Tile::Hint { hint, .. } => !mines[i] && hint == mine_count(mines, graph.spec_neighbors(i)),
        Tile::Empty => true,
    } by {
        if i != t {
            assert(fg[i] == g[i]);
        }
    }
}

/// Marking a flagged mine or an asserted tile as handled keeps the board's agreement.
proof fn lemma_agrees_same_kind<G: Graph>(grid: Seq<Tile>, graph: G, mines: Seq<bool>, loc: int, t: Tile)
    requires
        agrees_with(grid, graph, mines),
        0 <= loc < grid.len(),
        (grid[loc] is Mine && t is Mine) || (grid[loc] is AssertHint && t is AssertHint),
    ensures
        agrees_with(grid.update(loc, t), graph, mines),
{
    let g = grid.update(loc, t);
    assert forall|i: int| 0 <= i < g.len() implies match #[trigger] g[i] {
        Tile::Mine { .. } => mines[i],
        Tile::AssertHint { .. } => !mines[i],
        Tile::Hint { hint, .. } => !mines[i] && hint == mine_count(mines, graph.spec_neighbors(i)),
        Tile::Empty => true,
    } by {
        if i == loc {
            assert(grid[loc] is Mine ==> mines[loc]);
        }
    }
}

/// A board that agrees with a placement has no more flagged tiles than the placement has mines.
proof fn lemma_flagged_le<G: Graph>(grid: Seq<Tile>, graph: G, mines: Seq<bool>)
    requires
        agrees_with(grid, graph, mines),
    ensures
        tile_count(grid, true) <= true_count(mines),
{
    lemma_tile_count_mines(grid);
    assert forall|i: int| 0 <= i < mines_of(grid).len() && #[trigger] mines_of(grid)[i] implies mines[i] by {
        match grid[i] {
            Tile::Mine { .. } => {},
            _ => {},
        }
    }
    crate::bits::lemma_true_count_subset(mines_of(grid), mines);
}

// ---------------------------------------------------------------------------------------------
// Board checks used by the solver

impl<G: Graph> Board<G> {
    /// The number of flagged mines.
    pub fn placed_mines(&self) -> (r: usize)
        ensures
            r == tile_count(self.grid@, true),
    {
        let mut placed: usize = 0;
        let mut i: usize = 0;
        while i < self.grid.len()
            invariant
                i <= self.grid@.len(),
                placed == tile_count(self.grid@.take(i as int), true),
                placed <= i,
            decreases self.grid.len() - i,
        {
            proof {
                lemma_tile_count_step(self.grid@, i as int, true);
            }
            if let Tile::Mine { .. } = self.grid[i] {
                placed = placed + 1;
            }
            i = i + 1;
        }
        assert(self.grid@.take(self.grid@.len() as int) == self.grid@);
        placed
    }

    /// Whether flagging the undecided `tile` leaves every neighbouring hint's counters in range:
    /// each neighbouring hint has a mine left and an undecided neighbour for each time it is
    /// listed.
    pub fn flag_fits(&self, tile: usize) -> (r: bool)
        requires
            self.wf(),
            tile < self.grid@.len(),
        ensures
            r == shift_fits(self.grid@, self.nbrs(tile as int), -1, -1),
    {
        let nbrs = self.graph.neighbors(tile);
        proof {
            self.graph.lemma_neighbors_in_range(tile as int);
        }
        let ghost grid = self.grid@;
        let mut q: usize = 0;
        while q < nbrs.len()
            invariant
                grid == self.grid@,
                nbrs@ == self.nbrs(tile as int),
                forall|m: int| 0 <= m < nbrs@.len() ==> #[trigger] nbrs@[m] < grid.len(),
                q <= nbrs@.len(),
                forall|m: int| 0 <= m < q ==> match #[trigger] grid[nbrs@[m] as int] {
                    Tile::Hint { remaining_mines, empties, .. } => occ(nbrs@, nbrs@[m] as int) <= remaining_mines
                        && occ(nbrs@, nbrs@[m] as int) <= empties,
                    _ => true,
                },
            decreases nbrs.len() - q,
        {
            let j = nbrs[q];
            if let Tile::Hint { remaining_mines, empties, .. } = self.grid[j] {
                let mut count: usize = 0;
                let mut m: usize = 0;
                while m < nbrs.len()
                    invariant
                        m <= nbrs@.len(),
                        count == occ(nbrs@.take(m as int), j as int),
                        count <= m,
                    decreases nbrs.len() - m,
                {
                    proof {
                        lemma_occ_step(nbrs@, m as int, j as int);
                    }
                    if nbrs[m] == j {
                        count = count + 1;
                    }
                    m = m + 1;
                }
                proof {
                    assert(nbrs@.take(nbrs@.len() as int) == nbrs@);
                }
                if count > remaining_mines as usize || count > empties as usize {
                    proof {
                        assert(!shift_fits(grid, nbrs@, -1, -1)) by {
                            assert(match grid[j as int] {
                                Tile::Hint { remaining_mines, empties, .. } => !(0 <= remaining_mines + signed_count(-1, occ(nbrs@, j as int))
                                    && 0 <= empties + signed_count(-1, occ(nbrs@, j as int))),
                                _ => false,
                            });
                        }
                    }
                    return false;
                }
            }
            q = q + 1;
        }
        proof {
            assert forall|i: int| 0 <= i < grid.len() implies match #[trigger] grid[i] {
                Tile::Hint { remaining_mines, empties, .. } => 0 <= remaining_mines + signed_count(-1, occ(nbrs@, i))
                    <= u8::MAX && 0 <= empties + signed_count(-1, occ(nbrs@, i)) <= u8::MAX,
                _ => true,
            } by {
                if grid[i] is Hint && occ(nbrs@, i) > 0 {
                    lemma_occ_listed(nbrs@, i);
                    let m = choose|m: int| 0 <= m < nbrs@.len() && nbrs@[m] == i;
                    assert(grid[nbrs@[m] as int] == grid[i]);
                }
            }
        }
        true
    }

    /// Whether a hint can be placed on the undecided `tile` with every counter staying within
    /// `u8`: at most 255 flagged and 255 undecided neighbours, and each neighbouring hint has an
    /// undecided neighbour for each time it is listed.
    pub fn hint_fits(&self, tile: usize) -> (r: bool)
        requires
            self.wf(),
            tile < self.grid@.len(),
        ensures
            r == place_fits(self.grid@, self.nbrs(tile as int)),
    {
        let nbrs = self.graph.neighbors(tile);
        proof {
            self.graph.lemma_neighbors_in_range(tile as int);
        }
        let mut mines: usize = 0;
        let mut empties: usize = 0;
        let mut k: usize = 0;
        while k < nbrs.len()
            invariant
                nbrs@ == self.nbrs(tile as int),
                forall|m: int| 0 <= m < nbrs@.len() ==> #[trigger] nbrs@[m] < self.grid@.len(),
                k <= nbrs@.len(),
                mines == nbr_count(self.grid@, nbrs@.take(k as int), true),
                empties == nbr_count(self.grid@, nbrs@.take(k as int), false),
                mines <= k,
                empties <= k,
            decreases nbrs.len() - k,
        {
            proof {
                crate::board::lemma_count_step(self.grid@, nbrs@, k as int, true);
                crate::board::lemma_count_step(self.grid@, nbrs@, k as int, false);
            }
            match self.grid[nbrs[k]] {
                Tile::Mine { .. } => {
                    mines = mines + 1;
                },
                Tile::Empty => {
                    empties = empties + 1;
                },
                _ => {},
            }
            k = k + 1;
        }
        proof {
            assert(nbrs@.take(nbrs@.len() as int) == nbrs@);
        }
        mines <= 255 && empties <= 255 && self.assert_fits(tile)
    }

    /// Whether marking the undecided `tile` safe leaves every neighbouring hint's counters in
    /// range: each neighbouring hint has an undecided neighbour for each time it is listed.
    pub fn assert_fits(&self, tile: usize) -> (r: bool)
        requires
            self.wf(),
            tile < self.grid@.len(),
        ensures
            r == shift_fits(self.grid@, self.nbrs(tile as int), 0, -1),
    {
        let nbrs = self.graph.neighbors(tile);
        proof {
            self.graph.lemma_neighbors_in_range(tile as int);
        }
        let ghost grid = self.grid@;
        let mut q: usize = 0;
        while q < nbrs.len()
            invariant
                grid == self.grid@,
                nbrs@ == self.nbrs(tile as int),
                forall|m: int| 0 <= m < nbrs@.len() ==> #[trigger] nbrs@[m] < grid.len(),
                q <= nbrs@.len(),
                forall|m: int| 0 <= m < q ==> match #[trigger] grid[nbrs@[m] as int] {
                    Tile::Hint { empties, .. } => occ(nbrs@, nbrs@[m] as int) <= empties,
                    _ => true,
                },
            decreases nbrs.len() - q,
        {
            let j = nbrs[q];
            if let Tile::Hint { empties, .. } = self.grid[j] {
                let mut count: usize = 0;
                let mut m: usize = 0;
                while m < nbrs.len()
                    invariant
                        m <= nbrs@.len(),
                        count == occ(nbrs@.take(m as int), j as int),
                        count <= m,
                    decreases nbrs.len() - m,
                {
                    proof {
                        lemma_occ_step(nbrs@, m as int, j as int);
                    }
                    if nbrs[m] == j {
                        count = count + 1;
                    }
                    m = m + 1;
                }
                proof {
                    assert(nbrs@.take(nbrs@.len() as int) == nbrs@);
                }
                if count > empties as usize {
                    proof {
                        assert(!shift_fits(grid, nbrs@, 0, -1)) by {
                            assert(match grid[j as int] {
                                Tile::Hint { empties, .. } => !(0 <= empties + signed_count(-1, occ(nbrs@, j as int))),
                                _ => false,
                            });
                        }
                    }
                    return false;
                }
            }
            q = q + 1;
        }
        proof {
            assert forall|i: int| 0 <= i < grid.len() implies match #[trigger] grid[i] {
                Tile::Hint { remaining_mines, empties, .. } => 0 <= remaining_mines + signed_count(0, occ(nbrs@, i))
                    <= u8::MAX && 0 <= empties + signed_count(-1, occ(nbrs@, i)) <= u8::MAX,
                _ => true,
            } by {
                if grid[i] is Hint && occ(nbrs@, i) > 0 {
                    lemma_occ_listed(nbrs@, i);
                    let m = choose|m: int| 0 <= m < nbrs@.len() && nbrs@[m] == i;
                    assert(grid[nbrs@[m] as int] == grid[i]);
                }
            }
        }
        true
    }
}

/// A value that occurs in a list is listed at some position.
pub(crate) proof fn lemma_occ_listed(s: Seq<usize>, v: int)
    requires
        occ(s, v) > 0,
    ensures
        exists|m: int| 0 <= m < s.len() && s[m] == v,
    decreases s.len(),
{
    if s.last() != v {
        lemma_occ_listed(s.drop_last(), v);
        let m = choose|m: int| 0 <= m < s.drop_last().len() && s.drop_last()[m] == v;
        assert(s[m] == v);
    } else {
        assert(s[s.len() - 1] == v);
    }
}


// ---------------------------------------------------------------------------------------------
// Flagging a list of tiles

/// The grid after each tile of `tiles` has been flagged in turn.
pub open spec fn flag_all<G: Graph>(grid: Seq<Tile>, graph: G, tiles: Seq<usize>) -> Seq<Tile>
    decreases tiles.len(),
{
    if tiles.len() == 0 {
        grid
    } else {
        let t = tiles.last() as int;
        flagged_grid(flag_all(grid, graph, tiles.drop_last()), graph.spec_neighbors(t), t)
    }
}

/// Flagging each tile of `tiles` in turn keeps every counter within `u8`.
pub open spec fn flags_fit<G: Graph>(grid: Seq<Tile>, graph: G, tiles: Seq<usize>) -> bool
    decreases tiles.len(),
{
    if tiles.len() == 0 {
        true
    } else {
        let t = tiles.last() as int;
        let g = flag_all(grid, graph, tiles.drop_last());
        &&& flags_fit(grid, graph, tiles.drop_last())
        &&& (g[t] is Empty ==> shift_fits(g, graph.spec_neighbors(t), -1, -1))
    }
}

proof fn lemma_flags_fit_prefix<G: Graph>(grid: Seq<Tile>, graph: G, tiles: Seq<usize>, j: int)
    requires
        0 <= j <= tiles.len(),
        flags_fit(grid, graph, tiles),
    ensures
        flags_fit(grid, graph, tiles.take(j)),
    decreases tiles.len(),
{
    if j < tiles.len() {
        lemma_flags_fit_prefix(grid, graph, tiles.drop_last(), j);
        assert(tiles.drop_last().take(j) == tiles.take(j));
    } else {
        assert(tiles.take(j) == tiles);
    }
}

// ---------------------------------------------------------------------------------------------
// Pending marks

/// A freshly flagged mine or asserted tile whose neighbours have not been looked at yet.
pub open spec fn pending(t: Tile) -> bool {
    t == (Tile::Mine { needs_propogate: true }) || t == (Tile::AssertHint { needs_propogate: true })
}

/// A tile listed in `s` is still listed once the last entry, some other tile, is dropped.
proof fn lemma_contains_drop_last(s: Seq<usize>, t: usize)
    requires
        s.len() > 0,
        s.contains(t),
        s.last() != t,
    ensures
        s.drop_last().contains(t),
{
    let k = choose|k: int| 0 <= k < s.len() && s[k] == t;
    assert(s.drop_last()[k] == t);
}

/// A tile listed in `s` is still listed after more entries are appended.
proof fn lemma_contains_append(s: Seq<usize>, u: Seq<usize>, t: usize)
    ensures
        s.contains(t) ==> (s + u).contains(t),
        u.contains(t) ==> (s + u).contains(t),
{
    if s.contains(t) {
        let k = choose|k: int| 0 <= k < s.len() && s[k] == t;
        assert((s + u)[k] == t);
    }
    if u.contains(t) {
        let k = choose|k: int| 0 <= k < u.len() && u[k] == t;
        assert((s + u)[s.len() + k] == t);
    }
}

// ---------------------------------------------------------------------------------------------
// Knowledge only grows

/// Every tile of `new` is a state that the tile of `old` at the same position can turn into:
/// nothing decided in `old` is undone or changed in `new`.
pub open spec fn learns(new: Seq<Tile>, old: Seq<Tile>) -> bool {
    &&& new.len() == old.len()
    &&& spec_is_grid_subset_of(new, old)
}

proof fn lemma_learns_refl(g: Seq<Tile>)
    ensures
        learns(g, g),
{
    crate::board::law_subset_reflexive(g);
}

proof fn lemma_learns_trans(a: Seq<Tile>, b: Seq<Tile>, c: Seq<Tile>)
    requires
        learns(a, b),
        learns(b, c),
    ensures
        learns(a, c),
{
    crate::board::law_subset_transitive(a, b, c);
}

// ---------------------------------------------------------------------------------------------
// The solver

/// A board together with the game it describes: the solver uncovers tiles of the game and
/// records what it learns on the board.
#[verifier::reject_recursive_types(Gr)]
#[verifier::reject_recursive_types(Ga)]
pub struct Solver<Gr: Graph, Ga: Game<Graph = Gr>> {
    board: Board<Gr>,
    game: Ga,
}

/// Solving stopped at this board: all its undecided tiles hold the remaining mines, or the
/// arrangements of its remaining mines prove no undecided tile safe.
pub open spec fn stopped_at<G: Graph>(b: Board<G>) -> bool {
    ||| tile_count(b.grid@, false) == b.num_mines - tile_count(b.grid@, true)
    ||| exists|ss: MineArrangements| #[trigger] b.arrangements_of(ss) && !ss.spec_solved().0.contains(true)
}

/// Moving hint counters keeps the number of neighbours of each kind.
proof fn lemma_count_shifted(g: Seq<Tile>, nx: Seq<usize>, drm: int, de: int, s: Seq<usize>, mine: bool)
    requires
        forall|i: int| 0 <= i < s.len() ==> #[trigger] s[i] < g.len(),
    ensures
        nbr_count(shifted(g, nx, drm, de), s, mine) == nbr_count(g, s, mine),
    decreases s.len(),
{
    if s.len() > 0 {
        lemma_count_shifted(g, nx, drm, de, s.drop_last(), mine);
        let t = s.last() as int;
        assert(s[s.len() - 1] < g.len());
        lemma_shift_kind(g[t], signed_count(drm, occ(nx, t)), signed_count(de, occ(nx, t)));
    }
}

/// `b` starts with `a`: the answers of `a`, then possibly more.
pub open spec fn log_extends(a: Seq<(int, Option<u8>)>, b: Seq<(int, Option<u8>)>) -> bool {
    &&& a.len() <= b.len()
    &&& forall|i: int| 0 <= i < a.len() ==> #[trigger] b[i] == a[i]
}

/// `new` works on the same graph, mine count and game as `old`, every tile that could be
/// uncovered in `old`'s game still can, and the game's answers so far are kept.
pub open spec fn keeps_setting<Gr: Graph, Ga: Game<Graph = Gr>>(new: Solver<Gr, Ga>, old: Solver<Gr, Ga>) -> bool {
    &&& new.spec_board().graph == old.spec_board().graph
    &&& new.spec_board().num_mines == old.spec_board().num_mines
    &&& new.spec_board().grid@.len() == old.spec_board().grid@.len()
    &&& new.spec_game().spec_graph() == old.spec_game().spec_graph()
    &&& new.spec_game().spec_num_mines() == old.spec_game().spec_num_mines()
    &&& forall|p: int| old.spec_game().can_explore(p) ==> #[trigger] new.spec_game().can_explore(p)
    &&& log_extends(old.spec_game().spec_answers(), new.spec_game().spec_answers())
}

/// The game was asked since `before` (its answers grew to `after`), and its last answer was a
/// mine, or a number that the board `b`, where the tile is still undecided, cannot hold.
pub open spec fn refused_answer<G: Graph>(before: Seq<(int, Option<u8>)>, after: Seq<(int, Option<u8>)>, b: Board<G>) -> bool {
    &&& after.len() > before.len()
    &&& match after.last().1 {
        None => true,
        Some(h) => 0 <= after.last().0 < b.grid@.len() && b.grid@[after.last().0] is Empty && placed_grid(
            b.grid@,
            b.nbrs(after.last().0),
            after.last().0,
            h,
        ).0 is None,
    }
}

/// `r` reports the outcome `p` of placing a hint, whose grid the solver's board now shows:
/// `Some(true)` when the hint was placed, `Some(false)` when it was refused.
pub open spec fn placement_outcome(p: (Option<()>, Seq<Tile>), r: Option<bool>, grid: Seq<Tile>) -> bool {
    &&& r is Some
    &&& (r == Some(true)) == (p.0 is Some)
    &&& grid == p.1
}

/// Nothing is left to do on `b`: no tile waits to be propagated, and its undecided tiles hold
/// exactly the mines not yet flagged.
pub open spec fn already_solved<G: Graph>(b: Board<G>) -> bool {
    &&& forall|t: int| 0 <= t < b.grid@.len() ==> !(#[trigger] b.grid@[t]).spec_needs_propogate()
    &&& tile_count(b.grid@, true) <= b.num_mines
    &&& tile_count(b.grid@, false) == b.num_mines - tile_count(b.grid@, true)
}

/// Some undecided tile of `b` cannot be flagged: flagging it would take the counters of a
/// neighbouring hint below zero.
pub open spec fn flag_blocked<G: Graph>(b: Board<G>) -> bool {
    exists|t: int| 0 <= t < b.grid@.len() && #[trigger] b.grid@[t] is Empty && !shift_fits(b.grid@, b.nbrs(t), -1, -1)
}

impl<Gr: Graph, Ga: Game<Graph = Gr>> Solver<Gr, Ga> {
    pub closed spec fn spec_board(&self) -> Board<Gr> {
        self.board
    }

    pub closed spec fn spec_game(&self) -> Ga {
        self.game
    }

    /// The board can be worked on: a usable, symmetric graph with degrees that fit the hint
    /// counters, consistent counters, room to number groups of tiles, the game's graph, and
    /// every tile explorable in the game.
    pub open spec fn ready(&self) -> bool {
        let b = self.spec_board();
        &&& b.wf()
        &&& symmetric_graph(b.graph)
        &&& degrees_fit(b.graph)
        &&& counters_consistent(b.grid@, b.graph)
        &&& b.grid@.len() * 256 + 1 <= usize::MAX
        &&& same_graph_as(b.graph, self.spec_game().spec_graph())
        &&& forall|p: int| 0 <= p < b.grid@.len() ==> #[trigger] self.spec_game().can_explore(p)
    }

    /// The game's mines are placed, the board agrees with them and has as many mines as they
    /// are, and no neighbour list repeats a tile.
    pub open spec fn plays_true(&self) -> bool {
        &&& self.spec_game().spec_mines() is Some
        &&& agrees_with(self.spec_board().grid@, self.spec_board().graph, self.game_mines())
        &&& true_count(self.game_mines()) == self.spec_board().num_mines
        &&& distinct_neighbors(self.spec_board().graph)
    }

    /// The game's mines, once placed.
    pub open spec fn game_mines(&self) -> Seq<bool> {
        self.spec_game().spec_mines()->0
    }

    /// A solver for `game` starting from `board`, which must describe the same graph.
    pub fn new(board: Board<Gr>, game: Ga) -> (r: Self)
        requires
            same_graph_as(board.graph, game.spec_graph()),
        ensures
            r.spec_board() == board,
            r.spec_game() == game,
    {
        Solver { board, game }
    }

    /// A solver for `game` starting from a board with every tile undecided.
    pub fn from_game(game: Ga) -> (r: Self)
        requires
            game.spec_graph().graph_wf(),
        ensures
            same_graph_as(r.spec_board().graph, game.spec_graph()),
            r.spec_board().num_mines == game.spec_num_mines(),
            r.spec_board().grid@ == Seq::new(r.spec_board().graph.spec_num_tiles(), |i: int| Tile::Empty),
            r.spec_game() == game,
    {
        let board = Board::from_game(&game);
        Solver { board, game }
    }

    pub fn board(&self) -> (r: &Board<Gr>)
        ensures
            *r == self.spec_board(),
    {
        &self.board
    }

    pub fn game(&self) -> (r: &Ga)
        ensures
            *r == self.spec_game(),
    {
        &self.game
    }

    pub fn into_board(self) -> (r: Board<Gr>)
        ensures
            r == self.spec_board(),
    {
        self.board
    }

    pub fn into_game(self) -> (r: Ga)
        ensures
            r == self.spec_game(),
    {
        self.game
    }

    pub fn decompose(self) -> (r: (Board<Gr>, Ga))
        ensures
            r == (self.spec_board(), self.spec_game()),
    {
        (self.board, self.game)
    }

    /// Makes `tile` undecided again on the board.
    pub fn clear_tile(&mut self, tile: usize)
        requires
            old(self).spec_board().wf(),
            tile < old(self).spec_board().grid@.len(),
            clear_fits(old(self).spec_board().grid@, old(self).spec_board().nbrs(tile as int), tile as int),
        ensures
            final(self).spec_board().grid@ == cleared_grid(
                old(self).spec_board().grid@,
                old(self).spec_board().nbrs(tile as int),
                tile as int,
            ),
            final(self).spec_board().graph == old(self).spec_board().graph,
            final(self).spec_board().num_mines == old(self).spec_board().num_mines,
            final(self).spec_game() == old(self).spec_game(),
    {
        self.board.clear_tile(tile)
    }

    /// Flags `tile` on the board.
    pub fn flag_tile(&mut self, tile: usize)
        requires
            old(self).spec_board().wf(),
            tile < old(self).spec_board().grid@.len(),
            old(self).spec_board().grid@[tile as int] is Empty ==> shift_fits(
                old(self).spec_board().grid@,
                old(self).spec_board().nbrs(tile as int),
                -1,
                -1,
            ),
        ensures
            final(self).spec_board().grid@ == flagged_grid(
                old(self).spec_board().grid@,
                old(self).spec_board().nbrs(tile as int),
                tile as int,
            ),
            final(self).spec_board().graph == old(self).spec_board().graph,
            final(self).spec_board().num_mines == old(self).spec_board().num_mines,
            final(self).spec_game() == old(self).spec_game(),
    {
        self.board.flag_tile(tile)
    }

    /// Asserts on the board that the undecided `tile` is safe.
    pub fn assert_tile(&mut self, tile: usize)
        requires
            old(self).spec_board().wf(),
            tile < old(self).spec_board().grid@.len(),
            old(self).spec_board().grid@[tile as int] is Empty,
            shift_fits(old(self).spec_board().grid@, old(self).spec_board().nbrs(tile as int), 0, -1),
        ensures
            final(self).spec_board().grid@ == asserted_grid(
                old(self).spec_board().grid@,
                old(self).spec_board().nbrs(tile as int),
                tile as int,
            ),
            final(self).spec_board().graph == old(self).spec_board().graph,
            final(self).spec_board().num_mines == old(self).spec_board().num_mines,
            final(self).spec_game() == old(self).spec_game(),
    {
        self.board.assert_tile(tile)
    }

    /// Places the hint `hint` on `tile` of the board.
    pub fn set_tile(&mut self, tile: usize, hint: u8) -> (r: Option<()>)
        requires
            old(self).spec_board().wf(),
            tile < old(self).spec_board().grid@.len(),
            clear_fits(old(self).spec_board().grid@, old(self).spec_board().nbrs(tile as int), tile as int),
            place_fits(
                cleared_grid(old(self).spec_board().grid@, old(self).spec_board().nbrs(tile as int), tile as int),
                old(self).spec_board().nbrs(tile as int),
            ),
        ensures
            ({
                let placed = placed_grid(
                    cleared_grid(old(self).spec_board().grid@, old(self).spec_board().nbrs(tile as int), tile as int),
                    old(self).spec_board().nbrs(tile as int),
                    tile as int,
                    hint,
                );
                r == placed.0 && final(self).spec_board().grid@ == placed.1
            }),
            final(self).spec_board().graph == old(self).spec_board().graph,
            final(self).spec_board().num_mines == old(self).spec_board().num_mines,
            final(self).spec_game() == old(self).spec_game(),
    {
        self.board.set_tile(tile, hint)
    }

    pub fn remaining_mines(&self) -> (r: usize)
        requires
            tile_count(self.spec_board().grid@, true) <= self.spec_board().num_mines,
        ensures
            r == self.spec_board().num_mines - tile_count(self.spec_board().grid@, true),
    {
        self.board.remaining_mines()
    }

    pub fn remaining_empty_tiles(&self) -> (r: usize)
        ensures
            r == tile_count(self.spec_board().grid@, false),
    {
        self.board.remaining_empty_tiles()
    }

    pub fn is_solved(&self) -> (r: bool)
        requires
            tile_count(self.spec_board().grid@, true) <= self.spec_board().num_mines,
        ensures
            r == (tile_count(self.spec_board().grid@, false) == self.spec_board().num_mines - tile_count(
                self.spec_board().grid@,
                true,
            )),
    {
        self.board.is_solved()
    }

    /// Uncovers `tile` in the game, when it is undecided on the board, and places the hint the
    /// game answers with; a decided tile is left as it is, without asking the game. `None` when
    /// the game answers that the tile holds a mine, `Some(false)` when it answers with a hint
    /// the board cannot hold (the attempt leaves its mark on the neighbours' counters), and
    /// `Some(true)` otherwise.
    pub(crate) fn uncover_step(&mut self, tile: usize) -> (r: Option<bool>)
        requires
            old(self).ready(),
            tile < old(self).spec_board().grid@.len(),
        ensures
            keeps_setting(*final(self), *old(self)),
            r == Some(true) ==> final(self).ready(),
            r == Some(true) ==> learns(final(self).spec_board().grid@, old(self).spec_board().grid@),
            r == Some(true) ==> !(final(self).spec_board().grid@[tile as int] is Empty),
            r == Some(true) ==> forall|t: int|
                0 <= t < final(self).spec_board().grid@.len() && pending(#[trigger] final(self).spec_board().grid@[t])
                    ==> final(self).spec_board().grid@[t] == old(self).spec_board().grid@[t],
            r == Some(true) && !(old(self).spec_board().grid@[tile as int] is Empty) ==> final(self).spec_board()
                == old(self).spec_board(),
            r == Some(true) && old(self).spec_board().grid@[tile as int] is Empty ==> {
                &&& potential(final(self).spec_board().grid@) + 3 == potential(old(self).spec_board().grid@)
                &&& exists|h: u8| #[trigger] placed_grid(
                    old(self).spec_board().grid@,
                    old(self).spec_board().nbrs(tile as int),
                    tile as int,
                    h,
                ) == (Some(()), final(self).spec_board().grid@)
            },
            old(self).plays_true() && (old(self).spec_board().grid@[tile as int] is Empty ==> !old(self).game_mines()[tile as int])
                ==> r == Some(true) && final(self).plays_true() && final(self).game_mines() == old(self).game_mines(),
            old(self).spec_board().grid@[tile as int] is Empty && old(self).spec_game().spec_mines() is Some ==> if old(
                self,
            ).spec_game().spec_mines()->0[tile as int] {
                r is None && final(self).spec_board() == old(self).spec_board()
            } else {
                placement_outcome(
                    placed_grid(
                        old(self).spec_board().grid@,
                        old(self).spec_board().nbrs(tile as int),
                        tile as int,
                        mine_count(old(self).spec_game().spec_mines()->0, old(self).spec_game().spec_graph().spec_neighbors(tile as int))
                            as u8,
                    ),
                    r,
                    final(self).spec_board().grid@,
                )
            },
            old(self).spec_game().spec_mines() matches Some(m) && old(self).spec_board().grid@[tile as int] is Empty
                && m[tile as int] ==> r is None && final(self).spec_board() == old(self).spec_board(),
            old(self).plays_true() && old(self).spec_board().grid@[tile as int] is Empty && !old(self).game_mines()[tile as int]
                ==> r == Some(true) && (final(self).spec_board().grid@[tile as int] matches Tile::Hint { hint, .. } && hint
                == mine_count(old(self).game_mines(), old(self).spec_game().spec_graph().spec_neighbors(tile as int)) as u8),
            !(old(self).spec_board().grid@[tile as int] is Empty) ==> r == Some(true) && *final(self) == *old(self),
            old(self).spec_board().grid@[tile as int] is Empty ==> {
                let answers = final(self).spec_game().spec_answers();
                &&& answers == old(self).spec_game().spec_answers().push((tile as int, answers.last().1))
                &&& match answers.last().1 {
                    None => r is None && final(self).spec_board() == old(self).spec_board(),
                    Some(h) => placement_outcome(
                        placed_grid(old(self).spec_board().grid@, old(self).spec_board().nbrs(tile as int), tile as int, h),
                        r,
                        final(self).spec_board().grid@,
                    ),
                }
            },
            r != Some(true) ==> refused_answer(
                old(self).spec_game().spec_answers(),
                final(self).spec_game().spec_answers(),
                final(self).spec_board(),
            ),
            potential(final(self).spec_board().grid@) <= potential(old(self).spec_board().grid@),
    {
        if self.board.grid[tile] != Tile::Empty {
            proof {
                lemma_learns_refl(self.board.grid@);
            }
            return Some(true);
        }
        let ghost g0 = self.board.grid@;
        let ghost nx = self.board.nbrs(tile as int);
        proof {
            law_consistent_ops_fit(g0, self.board.graph, tile as int);
            assert(cleared_grid(g0, nx, tile as int) == g0);
        }
        let ghost game0 = self.game;
        let answer = self.game.explore_tile(tile);
        let hint = match answer {
            Some(h) => h,
            None => {
                return None;
            },
        };
        let placed = self.board.set_tile(tile, hint);
        proof {
            let g1 = self.board.grid@;
            if old(self).plays_true() && !old(self).game_mines()[tile as int] {
                let m = old(self).game_mines();
                assert(game0.spec_graph().spec_neighbors(tile as int) == nx);
                lemma_place_agrees(g0, self.board.graph, m, tile as int);
            }
            lemma_potential_shifted(g0, nx, 0, -1);
            if placed is None {
                self.board.graph.lemma_neighbors_in_range(tile as int);
                lemma_count_shifted(g0, nx, 0, -1, nx, true);
                lemma_count_shifted(g0, nx, 0, -1, nx, false);
                assert(g1 == shifted(g0, nx, 0, -1));
            }
            if placed is Some {
                law_place_keeps_counters(g0, self.board.graph, tile as int, hint);
                lemma_potential_update(shifted(g0, nx, 0, -1), tile as int, g1[tile as int]);
                assert(placed_grid(g0, nx, tile as int, hint) == (Some(()), g1));
                assert forall|i: int| 0 <= i < g1.len() && i < g0.len() implies #[trigger] g1[i].spec_subset_of(
                    g0[i],
                ) by {
                    if i != tile {
                        assert(g1[i] == shift_hint(g0[i], signed_count(0, occ(nx, i)), signed_count(-1, occ(nx, i))));
                    }
                }
                assert forall|i: int| 0 <= i < g1.len() && pending(#[trigger] g1[i]) implies g1[i] == g0[i] by {
                    if i != tile {
                        assert(g1[i] == shift_hint(g0[i], signed_count(0, occ(nx, i)), signed_count(-1, occ(nx, i))));
                    }
                }
            }
        }
        match placed {
            Some(()) => Some(true),
            None => Some(false),
        }
    }

    /// Uncovers `tile` in the game, when it is undecided on the board, and places the hint the
    /// game answers with; a decided tile is left as it is, without asking the game. `None` only
    /// when the game answers that the tile holds a mine, or when placing its hint would take a
    /// counter out of `u8` (never on a board that is `ready`). A hint that the board cannot hold
    /// is not placed: the tile stays undecided, and the attempt leaves the neighbouring hints
    /// counting it as decided.
    pub fn uncover_tile(&mut self, tile: usize) -> (r: Option<()>)
        requires
            old(self).spec_board().wf(),
            tile < old(self).spec_board().grid@.len(),
            old(self).spec_game().can_explore(tile as int),
        ensures
            keeps_setting(*final(self), *old(self)),
            !(old(self).spec_board().grid@[tile as int] is Empty) ==> r is Some && *final(self) == *old(self),
            old(self).spec_board().grid@[tile as int] is Empty ==> {
                let answers = final(self).spec_game().spec_answers();
                &&& answers == old(self).spec_game().spec_answers().push((tile as int, answers.last().1))
                &&& match answers.last().1 {
                    None => r is None && final(self).spec_board() == old(self).spec_board(),
                    Some(h) => {
                        let placed = placed_grid(
                            old(self).spec_board().grid@,
                            old(self).spec_board().nbrs(tile as int),
                            tile as int,
                            h,
                        );
                        if place_fits(old(self).spec_board().grid@, old(self).spec_board().nbrs(tile as int)) {
                            &&& r is Some
                            &&& final(self).spec_board().grid@ == placed.1
                            &&& old(self).ready() && placed.0 is Some ==> final(self).ready() && learns(
                                final(self).spec_board().grid@,
                                old(self).spec_board().grid@,
                            )
                        } else {
                            r is None && final(self).spec_board() == old(self).spec_board()
                        }
                    },
                }
            },
            old(self).ready() && old(self).spec_board().grid@[tile as int] is Empty ==> place_fits(
                old(self).spec_board().grid@,
                old(self).spec_board().nbrs(tile as int),
            ),
            old(self).ready() && old(self).plays_true() && (old(self).spec_board().grid@[tile as int] is Empty
                ==> !old(self).game_mines()[tile as int]) ==> r is Some && final(self).ready() && final(self).plays_true()
                && final(self).game_mines() == old(self).game_mines(),
            potential(final(self).spec_board().grid@) <= potential(old(self).spec_board().grid@),
    {
        if self.board.grid[tile] != Tile::Empty {
            return Some(());
        }
        let ghost g0 = self.board.grid@;
        let ghost nx = self.board.nbrs(tile as int);
        let ghost game0 = self.game;
        proof {
            if old(self).ready() {
                law_consistent_ops_fit(g0, self.board.graph, tile as int);
            }
            assert(cleared_grid(g0, nx, tile as int) == g0);
        }
        let hint = match self.game.explore_tile(tile) {
            Some(h) => h,
            None => {
                return None;
            },
        };
        if !self.board.hint_fits(tile) {
            return None;
        }
        let placed = self.board.set_tile(tile, hint);
        proof {
            let g1 = self.board.grid@;
            lemma_potential_shifted(g0, nx, 0, -1);
            if old(self).ready() && old(self).plays_true() && !old(self).game_mines()[tile as int] {
                let m = old(self).game_mines();
                assert(game0.spec_graph().spec_neighbors(tile as int) == nx);
                lemma_place_agrees(g0, self.board.graph, m, tile as int);
            }
            if placed is Some {
                lemma_potential_update(shifted(g0, nx, 0, -1), tile as int, g1[tile as int]);
                if old(self).ready() {
                    law_place_keeps_counters(g0, self.board.graph, tile as int, hint);
                    assert forall|i: int| 0 <= i < g1.len() && i < g0.len() implies #[trigger] g1[i].spec_subset_of(
                        g0[i],
                    ) by {
                        if i != tile {
                            assert(g1[i] == shift_hint(g0[i], signed_count(0, occ(nx, i)), signed_count(-1, occ(nx, i))));
                        }
                    }
                }
            }
        }
        Some(())
    }

    /// Acts on what the tile at `loc` shows: a freshly flagged mine or asserted tile is marked
    /// as handled; a hint with all its mines flagged has its other neighbours uncovered; a hint
    /// whose undecided neighbours are exactly its remaining mines has them flagged. Returns
    /// whether anything was done, or `None` when the game or the board refused a step.
    fn propogate_tile(&mut self, loc: usize, graph: &Gr) -> (r: Option<bool>)
        requires
            old(self).ready(),
            loc < old(self).spec_board().grid@.len(),
            same_graph_as(*graph, old(self).spec_board().graph),
        ensures
            keeps_setting(*final(self), *old(self)),
            r is None ==> refused_answer(
                old(self).spec_game().spec_answers(),
                final(self).spec_game().spec_answers(),
                final(self).spec_board(),
            ) || flag_blocked(final(self).spec_board()),
            r is Some ==> final(self).ready(),
            r is Some ==> learns(final(self).spec_board().grid@, old(self).spec_board().grid@),
            r is Some ==> !pending(final(self).spec_board().grid@[loc as int]),
            r is Some ==> forall|t: int|
                0 <= t < final(self).spec_board().grid@.len() && t != loc && pending(
                    #[trigger] final(self).spec_board().grid@[t],
                ) ==> final(self).spec_board().grid@[t] == old(self).spec_board().grid@[t] || old(
                    self,
                ).spec_board().nbrs(loc as int).contains(t as usize),
            !old(self).spec_board().grid@[loc as int].spec_needs_propogate() ==> r == Some(false) && *final(self)
                == *old(self),
            r == Some(true) ==> potential(final(self).spec_board().grid@) < potential(
                old(self).spec_board().grid@,
            ),
            potential(final(self).spec_board().grid@) <= potential(old(self).spec_board().grid@),
            r == Some(true) ==> !final(self).spec_board().grid@[loc as int].spec_needs_propogate(),
            old(self).plays_true() ==> r is Some && final(self).plays_true() && final(self).game_mines() == old(
                self,
            ).game_mines(),
            old(self).spec_board().grid@[loc as int] == (Tile::Mine { needs_propogate: true }) ==> r == Some(true)
                && final(self).spec_board().grid@ == old(self).spec_board().grid@.update(
                loc as int,
                Tile::Mine { needs_propogate: false },
            ),
            old(self).spec_board().grid@[loc as int] == (Tile::AssertHint { needs_propogate: true }) ==> r == Some(
                true,
            ) && final(self).spec_board().grid@ == old(self).spec_board().grid@.update(
                loc as int,
                Tile::AssertHint { needs_propogate: false },
            ),
            old(self).spec_board().grid@[loc as int].spec_needs_hint_fill() && r is Some ==> r == Some(true)
                && forall|m: int|
                0 <= m < old(self).spec_board().nbrs(loc as int).len() ==> !(#[trigger] final(self).spec_board().grid@[old(self).spec_board().nbrs(loc as int)[m] as int] is Empty),
            old(self).spec_board().grid@[loc as int].spec_needs_flag_fill() ==> (r is Some <==> flags_fit(
                old(self).spec_board().grid@,
                old(self).spec_board().graph,
                old(self).spec_board().nbrs(loc as int),
            )),
            old(self).spec_board().grid@[loc as int].spec_needs_flag_fill() && r is Some ==> r == Some(true)
                && final(self).spec_board().grid@ == flag_all(
                old(self).spec_board().grid@,
                old(self).spec_board().graph,
                old(self).spec_board().nbrs(loc as int),
            ),
    {
        let ghost g0 = self.board.grid@;
        let tile = self.board.grid[loc];
        match tile {
            Tile::Mine { needs_propogate: true } => {
                self.board.grid.set(loc, Tile::Mine { needs_propogate: false });
                proof {
                    self.lemma_handled(g0, loc as int);
                    if old(self).plays_true() {
                        lemma_agrees_same_kind(g0, self.board.graph, old(self).game_mines(), loc as int, Tile::Mine {
                            needs_propogate: false,
                        });
                    }
                }
                return Some(true);
            },
            Tile::AssertHint { needs_propogate: true } => {
                self.board.grid.set(loc, Tile::AssertHint { needs_propogate: false });
                proof {
                    self.lemma_handled(g0, loc as int);
                    if old(self).plays_true() {
                        lemma_agrees_same_kind(g0, self.board.graph, old(self).game_mines(), loc as int, Tile::AssertHint {
                            needs_propogate: false,
                        });
                    }
                }
                return Some(true);
            },
            _ => {},
        }
        if tile.needs_hint_fill() {
            let nbrs = graph.neighbors(loc);
            proof {
                self.board.graph.lemma_neighbors_in_range(loc as int);
                if old(self).plays_true() {
                    law_hint_fill_sound(g0, self.board.graph, old(self).game_mines(), loc as int);
                }
            }
            let mut k: usize = 0;
            while k < nbrs.len()
                invariant
                    old(self).plays_true() ==> self.plays_true() && self.game_mines() == old(self).game_mines(),
                    old(self).plays_true() ==> forall|m: int|
                        0 <= m < nbrs@.len() && #[trigger] g0[nbrs@[m] as int] is Empty ==> !old(self).game_mines()[nbrs@[m] as int],
                    self.ready(),
                    keeps_setting(*self, *old(self)),
                    g0 == old(self).spec_board().grid@,
                    loc < g0.len(),
                    g0[loc as int] == tile,
                    tile is Hint,
                    tile.spec_needs_hint_fill(),
                    nbrs@ == old(self).spec_board().nbrs(loc as int),
                    k <= nbrs@.len(),
                    forall|m: int| 0 <= m < nbrs@.len() ==> #[trigger] nbrs@[m] < g0.len(),
                    learns(self.spec_board().grid@, g0),
                    potential(self.spec_board().grid@) < potential(g0) || self.spec_board() == old(self).spec_board(),
                    self.spec_board() == old(self).spec_board() ==> forall|m: int|
                        0 <= m < k ==> !(#[trigger] g0[nbrs@[m] as int] is Empty),
                    forall|m: int| 0 <= m < k ==> !(#[trigger] self.spec_board().grid@[nbrs@[m] as int] is Empty),
                    forall|t: int|
                        0 <= t < g0.len() && pending(#[trigger] self.spec_board().grid@[t]) ==> self.spec_board().grid@[t]
                            == g0[t],
                decreases nbrs.len() - k,
            {
                let n = nbrs[k];
                let ghost cur = self.board.grid@;
                let ghost cur_board = self.board;
                proof {
                    if old(self).plays_true() && cur[n as int] is Empty {
                        assert(cur[n as int].spec_subset_of(g0[n as int]));
                        assert(g0[nbrs@[k as int] as int] is Empty);
                    }
                }
                match self.uncover_step(n) {
                    Some(true) => {},
                    _ => {
                        return None;
                    },
                }
                proof {
                    lemma_learns_trans(self.board.grid@, cur, g0);
                    assert forall|m: int| 0 <= m < k + 1 implies !(#[trigger] self.spec_board().grid@[nbrs@[m] as int] is Empty) by {
                        if m < k {
                            assert(self.board.grid@[nbrs@[m] as int].spec_subset_of(cur[nbrs@[m] as int]));
                        }
                    }
                    if self.board == old(self).spec_board() {
                        assert(cur_board == old(self).spec_board());
                    }
                }
                k = k + 1;
            }
            proof {
                self.lemma_neighbours_decided(g0, loc as int, nbrs@);
            }
            return Some(true);
        }
        if tile.needs_flag_fill() {
            let nbrs = graph.neighbors(loc);
            let ghost bg = self.board.graph;
            proof {
                self.board.graph.lemma_neighbors_in_range(loc as int);
                assert(nbrs@.take(0) == Seq::<usize>::empty());
                if old(self).plays_true() {
                    law_flag_fill_sound(g0, self.board.graph, old(self).game_mines(), loc as int);
                }
            }
            let mut k: usize = 0;
            while k < nbrs.len()
                invariant
                    old(self).plays_true() ==> self.plays_true() && self.game_mines() == old(self).game_mines(),
                    old(self).plays_true() ==> forall|m: int|
                        0 <= m < nbrs@.len() && #[trigger] g0[nbrs@[m] as int] is Empty ==> old(self).game_mines()[nbrs@[m] as int],
                    self.ready(),
                    keeps_setting(*self, *old(self)),
                    self.spec_game() == old(self).spec_game(),
                    bg == old(self).spec_board().graph,
                    g0 == old(self).spec_board().grid@,
                    loc < g0.len(),
                    g0[loc as int] == tile,
                    tile is Hint,
                    tile.spec_needs_flag_fill(),
                    nbrs@ == old(self).spec_board().nbrs(loc as int),
                    k <= nbrs@.len(),
                    forall|m: int| 0 <= m < nbrs@.len() ==> #[trigger] nbrs@[m] < g0.len(),
                    self.spec_board().grid@ == flag_all(g0, bg, nbrs@.take(k as int)),
                    flags_fit(g0, bg, nbrs@.take(k as int)),
                    learns(self.spec_board().grid@, g0),
                    potential(self.spec_board().grid@) < potential(g0) || self.spec_board() == old(self).spec_board(),
                    self.spec_board() == old(self).spec_board() ==> forall|m: int|
                        0 <= m < k ==> !(#[trigger] g0[nbrs@[m] as int] is Empty),
                    forall|m: int| 0 <= m < k ==> !(#[trigger] self.spec_board().grid@[nbrs@[m] as int] is Empty),
                    forall|t: int|
                        0 <= t < g0.len() && t != loc && pending(#[trigger] self.spec_board().grid@[t]) ==> self.spec_board().grid@[t]
                            == g0[t] || nbrs@.take(k as int).contains(t as usize),
                decreases nbrs.len() - k,
            {
                let n = nbrs[k];
                let ghost cur = self.board.grid@;
                proof {
                    assert(nbrs@.take(k + 1).drop_last() == nbrs@.take(k as int));
                    assert(nbrs@.take(k + 1).last() == n);
                    if old(self).plays_true() && cur[n as int] is Empty {
                        assert(cur[n as int].spec_subset_of(g0[n as int]));
                        assert(g0[nbrs@[k as int] as int] is Empty);
                    }
                }
                match self.flag_checked(n) {
                    None => {
                        proof {
                            if flags_fit(g0, bg, nbrs@) {
                                lemma_flags_fit_prefix(g0, bg, nbrs@, k + 1);
                            }
                            assert(self.spec_board().grid@[n as int] is Empty);
                        }
                        return None;
                    },
                    Some(()) => {},
                }
                proof {
                    lemma_learns_trans(self.board.grid@, cur, g0);
                    assert forall|m: int| 0 <= m < k + 1 implies !(#[trigger] self.spec_board().grid@[nbrs@[m] as int] is Empty) by {
                        if m < k {
                            assert(self.board.grid@[nbrs@[m] as int].spec_subset_of(cur[nbrs@[m] as int]));
                        }
                    }
                    assert forall|t: int|
                        0 <= t < g0.len() && t != loc && pending(#[trigger] self.spec_board().grid@[t]) implies self.spec_board().grid@[t]
                            == g0[t] || nbrs@.take(k + 1).contains(t as usize) by {
                        if t == n {
                            assert(nbrs@.take(k + 1)[k as int] == n);
                        } else if nbrs@.take(k as int).contains(t as usize) {
                            let m = choose|m: int| 0 <= m < k && nbrs@.take(k as int)[m] == t as usize;
                            assert(nbrs@.take(k + 1)[m] == t as usize);
                        }
                    }
                }
                k = k + 1;
            }
            proof {
                assert(nbrs@.take(nbrs@.len() as int) == nbrs@);
                self.lemma_neighbours_decided(g0, loc as int, nbrs@);
            }
            return Some(true);
        }
        Some(false)
    }

    /// After a freshly flagged mine or asserted tile at `loc` is marked as handled, the solver is
    /// still ready, has learnt, and weighs one less.
    proof fn lemma_handled(&self, g0: Seq<Tile>, loc: int)
        requires
            0 <= loc < g0.len(),
            g0[loc] == (Tile::Mine { needs_propogate: true }) || g0[loc] == (Tile::AssertHint { needs_propogate: true }),
            self.spec_board().grid@ == g0.update(
                loc,
                if g0[loc] is Mine {
                    Tile::Mine { needs_propogate: false }
                } else {
                    Tile::AssertHint { needs_propogate: false }
                },
            ),
            ({
                let b = self.spec_board();
                &&& b.wf()
                &&& symmetric_graph(b.graph)
                &&& degrees_fit(b.graph)
                &&& counters_consistent(g0, b.graph)
                &&& g0.len() * 256 + 1 <= usize::MAX
                &&& same_graph_as(b.graph, self.spec_game().spec_graph())
                &&& forall|p: int| 0 <= p < g0.len() ==> #[trigger] self.spec_game().can_explore(p)
            }),
        ensures
            self.ready(),
            learns(self.spec_board().grid@, g0),
            potential(self.spec_board().grid@) + 1 == potential(g0),
    {
        let g1 = self.spec_board().grid@;
        lemma_same_kind_consistent(g0, self.spec_board().graph, loc, g1[loc]);
        lemma_potential_update(g0, loc, g1[loc]);
        assert forall|i: int| 0 <= i < g1.len() && i < g0.len() implies #[trigger] g1[i].spec_subset_of(g0[i]) by {}
    }

    /// When every listed neighbour of the hint at `loc` is decided, after the board has learnt
    /// from `g0` where one of them was undecided, the board weighs less and the hint needs no
    /// more work.
    proof fn lemma_neighbours_decided(&self, g0: Seq<Tile>, loc: int, nbrs: Seq<usize>)
        requires
            self.ready(),
            0 <= loc < g0.len(),
            g0[loc] is Hint,
            g0[loc].spec_needs_hint_fill() || g0[loc].spec_needs_flag_fill(),
            counters_consistent(g0, self.spec_board().graph),
            nbrs == self.spec_board().nbrs(loc),
            learns(self.spec_board().grid@, g0),
            forall|m: int| 0 <= m < nbrs.len() ==> !(#[trigger] self.spec_board().grid@[nbrs[m] as int] is Empty),
            potential(self.spec_board().grid@) < potential(g0) || self.spec_board().grid@ == g0,
            self.spec_board().grid@ == g0 ==> forall|m: int| 0 <= m < nbrs.len() ==> !(#[trigger] g0[nbrs[m] as int] is Empty),
        ensures
            potential(self.spec_board().grid@) < potential(g0),
            !self.spec_board().grid@[loc].spec_needs_propogate(),
    {
        let g1 = self.spec_board().grid@;
        if g1 == g0 {
            lemma_count_pos(g0, nbrs, false);
            let q = choose|q: int| 0 <= q < nbrs.len() && is_kind(#[trigger] g0[nbrs[q] as int], false);
            assert(!(g0[nbrs[q] as int] is Empty));
        }
        assert(g1[loc].spec_subset_of(g0[loc]));
        if nbr_count(g1, nbrs, false) > 0 {
            lemma_count_pos(g1, nbrs, false);
            let q = choose|q: int| 0 <= q < nbrs.len() && is_kind(#[trigger] g1[nbrs[q] as int], false);
            assert(!(g1[nbrs[q] as int] is Empty));
        }
        assert(g1[loc] is Hint);
    }

    /// Works through `tiles` as a stack: each tile popped is acted on, and when that did
    /// something its neighbours are pushed. A list with nothing to act on is emptied and
    /// changes nothing. `None` only when the game answered a mine, or a hint the board cannot
    /// hold, or when, after some progress, a tile to flag would take a neighbouring hint's
    /// counters below zero.
    pub fn propogate(&mut self, tiles: &mut Vec<usize>) -> (r: Option<()>)
        requires
            old(self).ready(),
            forall|i: int| 0 <= i < old(tiles)@.len() ==> #[trigger] old(tiles)@[i] < old(self).spec_board().grid@.len(),
        ensures
            keeps_setting(*final(self), *old(self)),
            r is None ==> refused_answer(
                old(self).spec_game().spec_answers(),
                final(self).spec_game().spec_answers(),
                final(self).spec_board(),
            ) || (flag_blocked(final(self).spec_board()) && (potential(final(self).spec_board().grid@) < potential(
                old(self).spec_board().grid@,
            ) || final(tiles)@.len() < old(tiles)@.len())),
            (forall|i: int|
                0 <= i < old(tiles)@.len() ==> !old(self).spec_board().grid@[#[trigger] old(tiles)@[i] as int].spec_needs_propogate())
                ==> r == Some(()) && *final(self) == *old(self),
            r is Some ==> final(self).ready(),
            r is Some ==> learns(final(self).spec_board().grid@, old(self).spec_board().grid@),
            potential(final(self).spec_board().grid@) <= potential(old(self).spec_board().grid@),
            r is Some ==> final(tiles)@.len() == 0,
            r is Some ==> forall|t: int|
                0 <= t < final(self).spec_board().grid@.len() && pending(#[trigger] final(self).spec_board().grid@[t])
                    ==> final(self).spec_board().grid@[t] == old(self).spec_board().grid@[t] && !old(tiles)@.contains(
                    t as usize,
                ),
            old(self).plays_true() ==> r is Some && final(self).plays_true() && final(self).game_mines() == old(
                self,
            ).game_mines(),
    {
        let graph = self.game.graph().clone_graph();
        proof {
            lemma_learns_refl(self.board.grid@);
        }
        let ghost quiet = forall|i: int|
            0 <= i < old(tiles)@.len() ==> !old(self).spec_board().grid@[#[trigger] old(tiles)@[i] as int].spec_needs_propogate();
        while tiles.len() > 0
            invariant
                potential(self.spec_board().grid@) < potential(old(self).spec_board().grid@) || tiles@.len() <= old(
                    tiles,
                )@.len(),
                quiet == forall|i: int|
                    0 <= i < old(tiles)@.len() ==> !old(self).spec_board().grid@[#[trigger] old(tiles)@[i] as int].spec_needs_propogate(),
                quiet ==> *self == *old(self),
                quiet ==> forall|i: int|
                    0 <= i < tiles@.len() ==> !self.spec_board().grid@[#[trigger] tiles@[i] as int].spec_needs_propogate(),
                old(self).plays_true() ==> self.plays_true() && self.game_mines() == old(self).game_mines(),
                self.ready(),
                keeps_setting(*self, *old(self)),
                learns(self.spec_board().grid@, old(self).spec_board().grid@),
                potential(self.spec_board().grid@) <= potential(old(self).spec_board().grid@),
                same_graph_as(graph, self.spec_board().graph),
                forall|i: int| 0 <= i < tiles@.len() ==> #[trigger] tiles@[i] < self.spec_board().grid@.len(),
                forall|t: int|
                    0 <= t < self.spec_board().grid@.len() && pending(#[trigger] self.spec_board().grid@[t])
                        ==> tiles@.contains(t as usize) || (self.spec_board().grid@[t] == old(self).spec_board().grid@[t]
                        && !old(tiles)@.contains(t as usize)),
            decreases potential(self.spec_board().grid@), tiles@.len(),
        {
            let ghost stack = tiles@;
            let loc = tiles.pop().unwrap();
            let ghost cur = self.board.grid@;
            let ghost cur_solver = *self;
            proof {
                assert(tiles@ == stack.drop_last());
                assert(loc == stack.last());
                if quiet {
                    assert(stack[stack.len() - 1] == loc);
                    assert(!self.spec_board().grid@[loc as int].spec_needs_propogate());
                    assert forall|i: int| 0 <= i < tiles@.len() implies !self.spec_board().grid@[#[trigger] tiles@[i] as int].spec_needs_propogate() by {
                        assert(tiles@[i] == stack[i]);
                    }
                }
            }
            match self.propogate_tile(loc, &graph) {
                None => {
                    return None;
                },
                Some(changed) => {
                    proof {
                        lemma_learns_trans(self.board.grid@, cur, old(self).spec_board().grid@);
                        if !changed {
                            assert(!cur[loc as int].spec_needs_propogate());
                            assert(*self == cur_solver);
                        }
                    }
                    let ghost popped = tiles@;
                    if changed {
                        let mut nbrs = graph.neighbors(loc);
                        proof {
                            graph.lemma_neighbors_in_range(loc as int);
                        }
                        let ghost added = nbrs@;
                        tiles.append(&mut nbrs);
                        proof {
                            assert(tiles@ == popped + added);
                            assert(added == self.spec_board().nbrs(loc as int));
                        }
                    }
                    proof {
                        let g = self.board.grid@;
                        assert forall|t: int|
                            0 <= t < g.len() && pending(#[trigger] g[t]) implies tiles@.contains(t as usize) || (g[t]
                                == old(self).spec_board().grid@[t] && !old(tiles)@.contains(t as usize)) by {
                            assert(t != loc);
                            if g[t] == cur[t] {
                                if stack.contains(t as usize) {
                                    lemma_contains_drop_last(stack, t as usize);
                                    if changed {
                                        lemma_contains_append(popped, self.spec_board().nbrs(loc as int), t as usize);
                                    }
                                }
                            } else {
                                assert(changed);
                                lemma_contains_append(popped, self.spec_board().nbrs(loc as int), t as usize);
                            }
                        }
                    }
                },
            }
        }
        Some(())
    }

    /// One move of a game played with a search: uncovers `tile`, the tile the search picked,
    /// and solves as far as the board allows; a decided tile on a board with nothing left to do
    /// changes nothing. `None` only when the game answered a mine, or a hint the board cannot
    /// hold, when a tile to flag would take a neighbouring hint's counters below zero, or when
    /// more mines are flagged than the game holds.
    pub fn play_move(&mut self, tile: usize) -> (r: Option<()>)
        requires
            old(self).ready(),
            tile < old(self).spec_board().grid@.len(),
        ensures
            keeps_setting(*final(self), *old(self)),
            r is None ==> refused_answer(
                old(self).spec_game().spec_answers(),
                final(self).spec_game().spec_answers(),
                final(self).spec_board(),
            ) || tile_count(final(self).spec_board().grid@, true) > final(self).spec_board().num_mines || (flag_blocked(
                final(self).spec_board(),
            ) && (potential(final(self).spec_board().grid@) < potential(old(self).spec_board().grid@) || exists|t: int|
                0 <= t < old(self).spec_board().grid@.len() && (#[trigger] old(self).spec_board().grid@[t]).spec_needs_propogate())),
            !(old(self).spec_board().grid@[tile as int] is Empty) && already_solved(old(self).spec_board()) ==> r == Some(())
                && *final(self) == *old(self),
            old(self).spec_board().grid@[tile as int] is Empty ==> final(self).spec_game().spec_answers().len() > old(
                self,
            ).spec_game().spec_answers().len() && final(self).spec_game().spec_answers()[old(
                self,
            ).spec_game().spec_answers().len() as int].0 == tile,
            old(self).spec_board().grid@[tile as int] is Empty ==> match final(self).spec_game().spec_answers()[old(
                self,
            ).spec_game().spec_answers().len() as int].1 {
                None => r is None && final(self).spec_board() == old(self).spec_board(),
                Some(h) => placed_grid(
                    old(self).spec_board().grid@,
                    old(self).spec_board().nbrs(tile as int),
                    tile as int,
                    h,
                ).0 is None ==> r is None,
            },
            potential(final(self).spec_board().grid@) <= potential(old(self).spec_board().grid@),
            r is Some ==> final(self).ready(),
            r is Some ==> learns(final(self).spec_board().grid@, old(self).spec_board().grid@),
            r is Some ==> !(final(self).spec_board().grid@[tile as int] is Empty),
            r is Some ==> stopped_at(final(self).spec_board()),
            old(self).plays_true() && (old(self).spec_board().grid@[tile as int] is Empty ==> !old(self).game_mines()[tile as int])
                ==> r is Some && final(self).plays_true() && final(self).game_mines() == old(self).game_mines(),
            old(self).spec_game().spec_mines() matches Some(m) && old(self).spec_board().grid@[tile as int] is Empty
                && m[tile as int] ==> r is None && final(self).spec_board() == old(self).spec_board(),
    {
        match self.uncover_step(tile) {
            Some(true) => {},
            _ => {
                return None;
            },
        }
        let ghost mid = *self;
        let res = self.solve();
        proof {
            assert forall|p: int| old(self).spec_game().can_explore(p) implies #[trigger] self.spec_game().can_explore(p) by {
                assert(mid.spec_game().can_explore(p));
            }
            if res is Some {
                lemma_learns_trans(self.spec_board().grid@, mid.spec_board().grid@, old(self).spec_board().grid@);
                assert(self.spec_board().grid@[tile as int].spec_subset_of(mid.spec_board().grid@[tile as int]));
            }
        }
        res
    }

    /// Solves as far as the board allows: propagates what each tile shows, then uncovers the
    /// tiles that every arrangement of mines leaves safe and flags those that every
    /// arrangement fills, and repeats until the board is solved or nothing more is certain.
    /// A board with nothing left to do is left as it is. `None` only when the game answered a
    /// mine, or a hint the board cannot hold, when a tile to flag would take a neighbouring
    /// hint's counters below zero, or when more mines were flagged than the game holds.
    pub fn solve(&mut self) -> (r: Option<()>)
        requires
            old(self).ready(),
        ensures
            keeps_setting(*final(self), *old(self)),
            r is None ==> refused_answer(
                old(self).spec_game().spec_answers(),
                final(self).spec_game().spec_answers(),
                final(self).spec_board(),
            ) || tile_count(final(self).spec_board().grid@, true) > final(self).spec_board().num_mines || (flag_blocked(
                final(self).spec_board(),
            ) && (potential(final(self).spec_board().grid@) < potential(old(self).spec_board().grid@) || exists|t: int|
                0 <= t < old(self).spec_board().grid@.len() && (#[trigger] old(self).spec_board().grid@[t]).spec_needs_propogate())),
            already_solved(old(self).spec_board()) ==> r == Some(()) && *final(self) == *old(self),
            r is Some ==> final(self).ready(),
            r is Some ==> learns(final(self).spec_board().grid@, old(self).spec_board().grid@),
            potential(final(self).spec_board().grid@) <= potential(old(self).spec_board().grid@),
            r is Some ==> tile_count(final(self).spec_board().grid@, true) <= final(self).spec_board().num_mines,
            r is Some ==> forall|t: int|
                0 <= t < final(self).spec_board().grid@.len() ==> !pending(#[trigger] final(self).spec_board().grid@[t]),
            old(self).plays_true() ==> r is Some && final(self).plays_true() && final(self).game_mines() == old(
                self,
            ).game_mines(),
            r is Some ==> stopped_at(final(self).spec_board()),
    {
        let ghost done = already_solved(self.spec_board());
        let mut tiles: Vec<usize> = Vec::new();
        let mut i: usize = 0;
        while i < self.board.grid.len()
            invariant
                i <= self.spec_board().grid@.len(),
                forall|k: int|
                    0 <= k < tiles@.len() ==> self.spec_board().grid@[#[trigger] tiles@[k] as int].spec_needs_propogate(),
                forall|k: int| 0 <= k < tiles@.len() ==> #[trigger] tiles@[k] < self.spec_board().grid@.len(),
                forall|k: int|
                    0 <= k < i && (#[trigger] self.spec_board().grid@[k]).spec_needs_propogate() ==> tiles@.contains(
                        k as usize,
                    ),
            decreases self.spec_board().grid@.len() - i,
        {
            let ghost before = tiles@;
            if self.board.grid[i].needs_propogate() {
                tiles.push(i);
            }
            proof {
                assert forall|k: int|
                    0 <= k < i + 1 && (#[trigger] self.spec_board().grid@[k]).spec_needs_propogate() implies tiles@.contains(
                        k as usize,
                    ) by {
                    if k < i {
                        lemma_contains_append(before, tiles@.subrange(before.len() as int, tiles@.len() as int), k as usize);
                        assert(tiles@ == before + tiles@.subrange(before.len() as int, tiles@.len() as int));
                    } else {
                        assert(tiles@[tiles@.len() - 1] == i);
                    }
                }
            }
            i = i + 1;
        }
        proof {
            lemma_learns_refl(self.board.grid@);
            if done && tiles@.len() > 0 {
                assert(self.spec_board().grid@[tiles@[0] as int].spec_needs_propogate());
            }
        }
        loop
            invariant_except_break
                potential(self.spec_board().grid@) < potential(old(self).spec_board().grid@) || (*self == *old(self)
                    && forall|k: int|
                    0 <= k < tiles@.len() ==> old(self).spec_board().grid@[#[trigger] tiles@[k] as int].spec_needs_propogate()),
            invariant
                done == already_solved(old(self).spec_board()),
                done ==> *self == *old(self) && tiles@.len() == 0,
                old(self).plays_true() ==> self.plays_true() && self.game_mines() == old(self).game_mines(),
                self.ready(),
                keeps_setting(*self, *old(self)),
                learns(self.spec_board().grid@, old(self).spec_board().grid@),
                potential(self.spec_board().grid@) <= potential(old(self).spec_board().grid@),
                forall|k: int| 0 <= k < tiles@.len() ==> #[trigger] tiles@[k] < self.spec_board().grid@.len(),
                forall|t: int|
                    0 <= t < self.spec_board().grid@.len() && pending(#[trigger] self.spec_board().grid@[t])
                        ==> tiles@.contains(t as usize),
            ensures
                done ==> *self == *old(self),
                potential(self.spec_board().grid@) <= potential(old(self).spec_board().grid@),
                old(self).plays_true() ==> self.plays_true() && self.game_mines() == old(self).game_mines(),
                tile_count(self.spec_board().grid@, true) <= self.spec_board().num_mines,
                stopped_at(self.spec_board()),
                forall|t: int| 0 <= t < self.spec_board().grid@.len() ==> !pending(#[trigger] self.spec_board().grid@[t]),
            decreases potential(self.spec_board().grid@),
        {
            let ghost start = self.board.grid@;
            let ghost before = *self;
            let ghost listed = tiles@;
            match self.propogate(&mut tiles) {
                None => {
                    proof {
                        if potential(self.spec_board().grid@) >= potential(old(self).spec_board().grid@) && flag_blocked(
                            self.spec_board(),
                        ) && tiles@.len() < listed.len() {
                            assert(old(self).spec_board().grid@[listed[0] as int].spec_needs_propogate());
                        }
                    }
                    return None;
                },
                Some(()) => {},
            }
            proof {
                lemma_learns_trans(self.board.grid@, before.spec_board().grid@, old(self).spec_board().grid@);
                assert forall|t: int| 0 <= t < self.spec_board().grid@.len() implies !pending(
                    #[trigger] self.spec_board().grid@[t],
                ) by {
                    if pending(self.spec_board().grid@[t]) {
                        assert(self.spec_board().grid@[t] == before.spec_board().grid@[t]);
                    }
                }
            }
            proof {
                if old(self).plays_true() {
                    lemma_flagged_le(self.board.grid@, self.board.graph, self.game_mines());
                }
            }
            if self.board.placed_mines() > self.board.num_mines {
                return None;
            }
            if self.is_solved() {
                break;
            }
            let ss = self.board.solutionset();
            let (safe, mines) = ss.solved();
            if !safe.any() {
                proof {
                    assert(self.spec_board().arrangements_of(ss));
                }
                break;
            }
            let ghost at_split = self.board.grid@;
            let safe_tiles = safe.iter_ones();
            let mine_tiles = mines.iter_ones();
            proof {
                if old(self).plays_true() {
                    let m = self.game_mines();
                    law_agreeing_placement_consistent(self.board, m);
                    let p = undecided_part(at_split, m);
                    assert(ss.admits(p));
                    assert forall|t: int| 0 <= t < at_split.len() && #[trigger] safe@[t] implies !m[t] by {
                        assert(crate::arrangements::empties_of(at_split)[t]);
                        assert(!p[t]);
                    }
                    assert forall|t: int| 0 <= t < at_split.len() && #[trigger] mines@[t] implies m[t] by {
                        assert(p[t]);
                    }
                }
                lemma_ones_of(safe@);
                lemma_ones_of(mines@);
                if old(self).plays_true() {
                    assert forall|j: int| 0 <= j < safe_tiles@.len() implies !old(self).game_mines()[#[trigger] safe_tiles@[j] as int] by {
                        assert(safe@[safe_tiles@[j] as int]);
                    }
                    assert forall|j: int| 0 <= j < mine_tiles@.len() implies old(self).game_mines()[#[trigger] mine_tiles@[j] as int] by {
                        assert(mines@[mine_tiles@[j] as int]);
                    }
                }
                let j = choose|j: int| 0 <= j < safe@.len() && safe@[j];
                assert(safe_tiles@.contains(j as usize));
                assert(safe@[safe_tiles@[0] as int]);
                assert(at_split[safe_tiles@[0] as int] is Empty);
            }
            let mut k: usize = 0;
            while k < safe_tiles.len()
                invariant
                    old(self).plays_true() ==> self.plays_true() && self.game_mines() == old(self).game_mines(),
                    old(self).plays_true() ==> forall|j: int|
                        0 <= j < safe_tiles@.len() ==> !old(self).game_mines()[#[trigger] safe_tiles@[j] as int],
                    old(self).plays_true() ==> forall|j: int|
                        0 <= j < mine_tiles@.len() ==> old(self).game_mines()[#[trigger] mine_tiles@[j] as int],
                    !done,
                    done == already_solved(old(self).spec_board()),
                    potential(start) <= potential(old(self).spec_board().grid@),
                    self.ready(),
                    keeps_setting(*self, *old(self)),
                    learns(self.spec_board().grid@, old(self).spec_board().grid@),
                    k <= safe_tiles@.len(),
                    safe_tiles@.len() > 0,
                    forall|m: int| 0 <= m < safe_tiles@.len() ==> #[trigger] safe_tiles@[m] < self.spec_board().grid@.len(),
                    k == 0 ==> self.spec_board().grid@ == at_split,
                    at_split[safe_tiles@[0] as int] is Empty,
                    potential(at_split) <= potential(start),
                    k == 0 ==> potential(self.spec_board().grid@) == potential(at_split),
                    k > 0 ==> potential(self.spec_board().grid@) < potential(at_split),
                    forall|q: int| 0 <= q < tiles@.len() ==> #[trigger] tiles@[q] < self.spec_board().grid@.len(),
                    forall|t: int| 0 <= t < self.spec_board().grid@.len() ==> !pending(#[trigger] self.spec_board().grid@[t]),
                decreases safe_tiles.len() - k,
            {
                let t = safe_tiles[k];
                let ghost cur = self.board.grid@;
                match self.uncover_step(t) {
                    Some(true) => {},
                    _ => {
                        return None;
                    },
                }
                proof {
                    lemma_learns_trans(self.board.grid@, cur, old(self).spec_board().grid@);
                    assert forall|q: int| 0 <= q < self.spec_board().grid@.len() implies !pending(
                        #[trigger] self.spec_board().grid@[q],
                    ) by {
                        if pending(self.spec_board().grid@[q]) {
                            assert(self.spec_board().grid@[q] == cur[q]);
                        }
                    }
                }
                tiles.push(t);
                k = k + 1;
            }
            let mut k: usize = 0;
            while k < mine_tiles.len()
                invariant
                    old(self).plays_true() ==> self.plays_true() && self.game_mines() == old(self).game_mines(),
                    old(self).plays_true() ==> forall|j: int|
                        0 <= j < mine_tiles@.len() ==> old(self).game_mines()[#[trigger] mine_tiles@[j] as int],
                    !done,
                    done == already_solved(old(self).spec_board()),
                    potential(start) <= potential(old(self).spec_board().grid@),
                    self.ready(),
                    keeps_setting(*self, *old(self)),
                    learns(self.spec_board().grid@, old(self).spec_board().grid@),
                    k <= mine_tiles@.len(),
                    forall|m: int| 0 <= m < mine_tiles@.len() ==> #[trigger] mine_tiles@[m] < self.spec_board().grid@.len(),
                    potential(self.spec_board().grid@) < potential(start),
                    forall|q: int| 0 <= q < tiles@.len() ==> #[trigger] tiles@[q] < self.spec_board().grid@.len(),
                    forall|q: int|
                        0 <= q < self.spec_board().grid@.len() && pending(#[trigger] self.spec_board().grid@[q])
                            ==> tiles@.contains(q as usize),
                decreases mine_tiles.len() - k,
            {
                let t = mine_tiles[k];
                let ghost cur = self.board.grid@;
                match self.flag_checked(t) {
                    None => {
                        proof {
                            assert(self.spec_board().grid@[t as int] is Empty);
                        }
                        return None;
                    },
                    Some(()) => {},
                }
                proof {
                    lemma_learns_trans(self.board.grid@, cur, old(self).spec_board().grid@);
                }
                let ghost before_push = tiles@;
                tiles.push(t);
                proof {
                    assert forall|q: int|
                        0 <= q < self.spec_board().grid@.len() && pending(#[trigger] self.spec_board().grid@[q])
                            implies tiles@.contains(q as usize) by {
                        if q == t {
                            assert(tiles@[tiles@.len() - 1] == t);
                        } else {
                            assert(self.spec_board().grid@[q] == cur[q]);
                            let m = choose|m: int| 0 <= m < before_push.len() && before_push[m] == q as usize;
                            assert(tiles@[m] == q as usize);
                        }
                    }
                }
                k = k + 1;
            }
        }
        Some(())
    }

    /// Flags `tile` when it is undecided and flagging it keeps every neighbouring hint's
    /// counters in range; `None`, with nothing changed, when it does not.
    fn flag_checked(&mut self, tile: usize) -> (r: Option<()>)
        requires
            old(self).ready(),
            tile < old(self).spec_board().grid@.len(),
        ensures
            final(self).spec_game() == old(self).spec_game(),
            final(self).spec_board().graph == old(self).spec_board().graph,
            final(self).spec_board().num_mines == old(self).spec_board().num_mines,
            r is Some <==> (old(self).spec_board().grid@[tile as int] is Empty ==> shift_fits(
                old(self).spec_board().grid@,
                old(self).spec_board().nbrs(tile as int),
                -1,
                -1,
            )),
            r is None ==> final(self).spec_board() == old(self).spec_board(),
            !(old(self).spec_board().grid@[tile as int] is Empty) ==> final(self).spec_board() == old(
                self).spec_board(),
            r is Some ==> final(self).ready(),
            r is Some ==> final(self).spec_board().grid@ == flagged_grid(
                old(self).spec_board().grid@,
                old(self).spec_board().nbrs(tile as int),
                tile as int,
            ),
            r is Some ==> learns(final(self).spec_board().grid@, old(self).spec_board().grid@),
            r is Some ==> !(final(self).spec_board().grid@[tile as int] is Empty),
            r is Some ==> forall|t: int|
                0 <= t < final(self).spec_board().grid@.len() && t != tile && pending(
                    #[trigger] final(self).spec_board().grid@[t],
                ) ==> final(self).spec_board().grid@[t] == old(self).spec_board().grid@[t],
            r is Some && old(self).spec_board().grid@[tile as int] is Empty ==> potential(
                final(self).spec_board().grid@,
            ) + 2 == potential(old(self).spec_board().grid@),
            old(self).plays_true() && (old(self).spec_board().grid@[tile as int] is Empty ==> old(self).game_mines()[tile as int])
                ==> r is Some && final(self).plays_true(),
    {
        let ghost g0 = self.board.grid@;
        let ghost nx = self.board.nbrs(tile as int);
        proof {
            if old(self).plays_true() && g0[tile as int] is Empty && old(self).game_mines()[tile as int] {
                lemma_flag_agrees(g0, self.board.graph, old(self).game_mines(), tile as int);
            }
        }
        if self.board.grid[tile] != Tile::Empty {
            proof {
                lemma_learns_refl(g0);
            }
            return Some(());
        }
        if !self.board.flag_fits(tile) {
            return None;
        }
        proof {
            law_flag_keeps_counters(g0, self.board.graph, tile as int);
        }
        self.board.flag_tile(tile);
        proof {
            let g1 = self.board.grid@;
            lemma_potential_shifted(g0, nx, -1, -1);
            lemma_potential_update(shifted(g0, nx, -1, -1), tile as int, g1[tile as int]);
            assert forall|i: int| 0 <= i < g1.len() && i < g0.len() implies #[trigger] g1[i].spec_subset_of(
                g0[i],
            ) by {
                if i != tile {
                    assert(g1[i] == shift_hint(g0[i], signed_count(-1, occ(nx, i)), signed_count(-1, occ(nx, i))));
                }
            }
            assert forall|i: int| 0 <= i < g1.len() && i != tile && pending(#[trigger] g1[i]) implies g1[i] == g0[i] by {
                assert(g1[i] == shift_hint(g0[i], signed_count(-1, occ(nx, i)), signed_count(-1, occ(nx, i))));
            }
        }
        Some(())
    }
}

/// A solver is itself a game: it answers with the game it works on.
impl<Gr: Graph, Ga: Game<Graph = Gr>> Game for Solver<Gr, Ga> {
    type Graph = Gr;

    open spec fn spec_graph(&self) -> Gr {
        self.spec_game().spec_graph()
    }

    open spec fn spec_num_mines(&self) -> nat {
        self.spec_game().spec_num_mines()
    }

    open spec fn can_explore(&self, pos: int) -> bool {
        self.spec_game().can_explore(pos)
    }

    open spec fn spec_mines(&self) -> Option<Seq<bool>> {
        self.spec_game().spec_mines()
    }

    open spec fn spec_answers(&self) -> Seq<(int, Option<u8>)> {
        self.spec_game().spec_answers()
    }

    fn graph(&self) -> (r: &Gr) {
        self.game.graph()
    }

    fn explore_tile(&mut self, pos: usize) -> (r: Option<u8>) {
        self.game.explore_tile(pos)
    }

    fn num_mines(&self) -> (r: usize) {
        self.game.num_mines()
    }
}

} // verus!
