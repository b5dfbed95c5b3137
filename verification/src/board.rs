use vstd::prelude::*;
use crate::graph::{Graph, same_graph_as};
use crate::game::Game;

verus! {

/// The state of one tile of a board as the solver knows it.
///
/// A `Hint` carries the number shown on the tile (`hint`), how many of its neighbours are
/// still unflagged mines (`remaining_mines`) and how many of its neighbours are still
/// undecided (`empties`).
#[derive(Clone, Copy, Debug, PartialEq, Eq, Hash, Structural)]
pub enum Tile {
    Empty,
    Mine { needs_propogate: bool },
    AssertHint { needs_propogate: bool },
    Hint { hint: u8, remaining_mines: u8, empties: u8 },
}

impl Tile {
    pub open spec fn spec_needs_flag_fill(self) -> bool {
        match self {
            Tile::Hint { remaining_mines, empties, .. } => remaining_mines > 0 && remaining_mines
                == empties,
            _ => false,
        }
    }

    pub open spec fn spec_needs_hint_fill(self) -> bool {
        match self {
            Tile::Hint { remaining_mines, empties, .. } => empties > 0 && remaining_mines == 0,
            _ => false,
        }
    }

    pub open spec fn spec_needs_propogate(self) -> bool {
        match self {
            Tile::Empty => false,
            Tile::Mine { needs_propogate } => needs_propogate,
            Tile::AssertHint { needs_propogate } => needs_propogate,
            Tile::Hint { .. } => self.spec_needs_flag_fill() || self.spec_needs_hint_fill(),
        }
    }

    /// `self` is a state that `other` can still turn into: what `other` knows, `self` knows too.
    pub open spec fn spec_subset_of(self, other: Tile) -> bool {
        match other {
            Tile::Empty => true,
            Tile::Mine { .. } => self is Mine,
            Tile::AssertHint { .. } => self is Hint || self is AssertHint,
            Tile::Hint { hint: h1, .. } => match self {
                Tile::Hint { hint: h2, .. } => h1 == h2,
                _ => false,
            },
        }
    }

    /// A hint whose remaining mines are exactly its undecided neighbours: they all hold mines.
    pub fn needs_flag_fill(&self) -> (r: bool)
        ensures
            r == self.spec_needs_flag_fill(),
    {
        match *self {
            Tile::Hint { remaining_mines, empties, .. } => remaining_mines > 0 && remaining_mines
                == empties,
            _ => false,
        }
    }

    /// A hint with no remaining mines but undecided neighbours: they are all safe.
    pub fn needs_hint_fill(&self) -> (r: bool)
        ensures
            r == self.spec_needs_hint_fill(),
    {
        match *self {
            Tile::Hint { remaining_mines, empties, .. } => empties > 0 && remaining_mines == 0,
            _ => false,
        }
    }

    pub fn needs_propogate(&self) -> (r: bool)
        ensures
            r == self.spec_needs_propogate(),
    {
        match *self {
            Tile::Empty => false,
            Tile::Mine { needs_propogate } => needs_propogate,
            Tile::AssertHint { needs_propogate } => needs_propogate,
            Tile::Hint { .. } => self.needs_flag_fill() || self.needs_hint_fill(),
        }
    }

    pub fn subset_of(&self, other: &Self) -> (r: bool)
        ensures
            r == self.spec_subset_of(*other),
    {
        match *other {
            Tile::Empty => true,
            Tile::Mine { .. } => match *self {
                Tile::Mine { .. } => true,
                _ => false,
            },
            Tile::AssertHint { .. } => match *self {
                Tile::Hint { .. } | Tile::AssertHint { .. } => true,
                _ => false,
            },
            Tile::Hint { hint: h1, .. } => match *self {
                Tile::Hint { hint: h2, .. } => h1 == h2,
                _ => false,
            },
        }
    }
}

/// Every tile of `subset` (up to the shorter length) is a subset of the tile of `set` at the
/// same position.
pub open spec fn spec_is_grid_subset_of(subset: Seq<Tile>, set: Seq<Tile>) -> bool {
    forall|i: int|
        0 <= i < subset.len() && i < set.len() ==> #[trigger] subset[i].spec_subset_of(set[i])
}

pub fn is_grid_subset_of(subset: &[Tile], set: &[Tile]) -> (r: bool)
    ensures
        r == spec_is_grid_subset_of(subset@, set@),
{
    let mut i: usize = 0;
    while i < subset.len() && i < set.len()
        invariant
            i <= subset@.len(),
            forall|j: int| 0 <= j < i && j < set@.len() ==> #[trigger] subset@[j].spec_subset_of(set@[j]),
        decreases subset.len() - i,
    {
        if !subset[i].subset_of(&set[i]) {
            return false;
        }
        i = i + 1;
    }
    true
}

// ---------------------------------------------------------------------------------------------
// Counting over neighbour lists

/// The tile is an `Empty` (when `mine` is false) or a `Mine` (when `mine` is true).
pub open spec fn is_kind(t: Tile, mine: bool) -> bool {
    if mine {
        t is Mine
    } else {
        t is Empty
    }
}

/// How many entries of the list `nbrs` point at a tile of the given kind in `grid`.
pub open spec fn nbr_count(grid: Seq<Tile>, nbrs: Seq<usize>, mine: bool) -> nat
    decreases nbrs.len(),
{
    if nbrs.len() == 0 {
        0
    } else {
        nbr_count(grid, nbrs.drop_last(), mine) + if is_kind(grid[nbrs.last() as int], mine) {
            1nat
        } else {
            0nat
        }
    }
}

/// How many tiles of `grid` are of the given kind.
pub open spec fn tile_count(grid: Seq<Tile>, mine: bool) -> nat
    decreases grid.len(),
{
    if grid.len() == 0 {
        0
    } else {
        tile_count(grid.drop_last(), mine) + if is_kind(grid.last(), mine) {
            1nat
        } else {
            0nat
        }
    }
}

/// How many times `v` occurs in `s`.
pub open spec fn occ(s: Seq<usize>, v: int) -> nat
    decreases s.len(),
{
    if s.len() == 0 {
        0
    } else {
        occ(s.drop_last(), v) + if s.last() == v {
            1nat
        } else {
            0nat
        }
    }
}

/// `n` steps in the direction `d` (up for 1, down for -1, none for 0).
pub open spec fn signed_count(d: int, n: nat) -> int {
    if d > 0 {
        n as int
    } else if d < 0 {
        -(n as int)
    } else {
        0
    }
}

/// A hint with both of its counters moved by the given amounts; other tiles unchanged.
pub open spec fn shift_hint(t: Tile, drm: int, de: int) -> Tile {
    match t {
        Tile::Hint { hint, remaining_mines, empties } => Tile::Hint {
            hint,
            remaining_mines: (remaining_mines + drm) as u8,
            empties: (empties + de) as u8,
        },
        _ => t,
    }
}

/// Every hint of `grid` moved once per occurrence in `nbrs`, by `drm` and `de`.
pub open spec fn shifted(grid: Seq<Tile>, nbrs: Seq<usize>, drm: int, de: int) -> Seq<Tile> {
    Seq::new(grid.len(), |i: int| shift_hint(grid[i], signed_count(drm, occ(nbrs, i)), signed_count(de, occ(nbrs, i))))
}

/// Every hint of `grid` can be moved by `drm` and `de` once per occurrence in `nbrs`
/// without leaving the range of `u8`.
pub open spec fn shift_fits(grid: Seq<Tile>, nbrs: Seq<usize>, drm: int, de: int) -> bool {
    forall|i: int|
        0 <= i < grid.len() ==> match #[trigger] grid[i] {
            Tile::Hint { remaining_mines, empties, .. } => 0 <= remaining_mines + signed_count(drm, occ(nbrs, i))
                <= u8::MAX && 0 <= empties + signed_count(de, occ(nbrs, i)) <= u8::MAX,
            _ => true,
        }
}

/// Every entry of `nbrs` is a position of `grid`.
pub open spec fn in_grid(grid: Seq<Tile>, nbrs: Seq<usize>) -> bool {
    forall|i: int| 0 <= i < nbrs.len() ==> #[trigger] nbrs[i] < grid.len()
}

// ---------------------------------------------------------------------------------------------
// The effect of each board operation on the grid

/// The grid after `tile` has been flagged as a mine.
pub open spec fn flagged_grid(grid: Seq<Tile>, nbrs: Seq<usize>, tile: int) -> Seq<Tile> {
    if grid[tile] is Empty {
        shifted(grid, nbrs, -1, -1).update(tile, Tile::Mine { needs_propogate: true })
    } else {
        grid
    }
}

/// The grid after `tile` has been asserted to be safe.
pub open spec fn asserted_grid(grid: Seq<Tile>, nbrs: Seq<usize>, tile: int) -> Seq<Tile> {
    shifted(grid, nbrs, 0, -1).update(tile, Tile::AssertHint { needs_propogate: true })
}

/// The grid after `tile` has been made undecided again.
pub open spec fn cleared_grid(grid: Seq<Tile>, nbrs: Seq<usize>, tile: int) -> Seq<Tile> {
    match grid[tile] {
        Tile::Empty => grid,
        Tile::Mine { .. } => shifted(grid, nbrs, 1, 1).update(tile, Tile::Empty),
        _ => shifted(grid, nbrs, 0, 1).update(tile, Tile::Empty),
    }
}

/// Clearing `tile` keeps every counter within `u8`.
pub open spec fn clear_fits(grid: Seq<Tile>, nbrs: Seq<usize>, tile: int) -> bool {
    match grid[tile] {
        Tile::Empty => true,
        Tile::Mine { .. } => shift_fits(grid, nbrs, 1, 1),
        _ => shift_fits(grid, nbrs, 0, 1),
    }
}

/// Placing a hint on an undecided `tile` of `grid` keeps every counter within `u8`.
pub open spec fn place_fits(grid: Seq<Tile>, nbrs: Seq<usize>) -> bool {
    &&& nbr_count(grid, nbrs, true) <= u8::MAX
    &&& nbr_count(grid, nbrs, false) <= u8::MAX
    &&& shift_fits(grid, nbrs, 0, -1)
}

/// The grid after the hint `hint` has been placed on the undecided `tile`, when it is
/// consistent with the neighbours' states, or `None`, with the grid that the failed attempt
/// leaves behind.
pub open spec fn placed_grid(grid: Seq<Tile>, nbrs: Seq<usize>, tile: int, hint: u8) -> (
    Option<()>,
    Seq<Tile>,
) {
    let mines = nbr_count(grid, nbrs, true);
    let empties = nbr_count(grid, nbrs, false);
    let g = shifted(grid, nbrs, 0, -1);
    if mines > hint || empties < hint - mines {
        (None, g)
    } else {
        (
            Some(()),
            g.update(
                tile,
                Tile::Hint {
                    hint,
                    remaining_mines: (hint - mines) as u8,
                    empties: empties as u8,
                },
            ),
        )
    }
}

/// The tile as a board with this many fewer mines to find would show it.
pub open spec fn normalized_tile(t: Tile) -> Tile {
    match t {
        Tile::Mine { needs_propogate } => Tile::AssertHint { needs_propogate },
        Tile::Hint { remaining_mines, empties, .. } => if remaining_mines == 0 {
            Tile::AssertHint { needs_propogate: false }
        } else {
            Tile::Hint { hint: remaining_mines, remaining_mines, empties }
        },
        _ => t,
    }
}

// ---------------------------------------------------------------------------------------------
// Counter consistency

/// Every hint's counters agree with the states of its neighbours: `empties` is the number of
/// undecided neighbours and `hint` is `remaining_mines` plus the number of flagged neighbours.
pub open spec fn counters_consistent<G: Graph>(grid: Seq<Tile>, graph: G) -> bool {
    forall|t: int|
        0 <= t < grid.len() ==> match #[trigger] grid[t] {
            Tile::Hint { hint, remaining_mines, empties } => empties == nbr_count(
                grid,
                graph.spec_neighbors(t),
                false,
            ) && hint == remaining_mines + nbr_count(grid, graph.spec_neighbors(t), true),
            _ => true,
        }
}

/// Tile `a` lists `b` as a neighbour exactly as often as `b` lists `a`, and no tile is its
/// own neighbour.
pub open spec fn symmetric_graph<G: Graph>(graph: G) -> bool {
    &&& forall|a: int, b: int|
        0 <= a < graph.spec_num_tiles() && 0 <= b < graph.spec_num_tiles() ==> #[trigger] occ(
            graph.spec_neighbors(a),
            b,
        ) == #[trigger] occ(graph.spec_neighbors(b), a)
    &&& forall|a: int|
        0 <= a < graph.spec_num_tiles() ==> #[trigger] occ(graph.spec_neighbors(a), a) == 0
}

/// No tile has more than 255 neighbour entries, so the `u8` counters can hold every count.
pub open spec fn degrees_fit<G: Graph>(graph: G) -> bool {
    forall|a: int| 0 <= a < graph.spec_num_tiles() ==> #[trigger] graph.spec_neighbors(a).len() <= u8::MAX
}

// ---------------------------------------------------------------------------------------------
// Lemmas

pub(crate) proof fn lemma_occ_prefix(s: Seq<usize>, k: int, v: int)
    requires
        0 <= k <= s.len(),
    ensures
        occ(s.take(k), v) <= occ(s, v),
    decreases s.len(),
{
    if k < s.len() {
        assert(s.take(k) == s.drop_last().take(k));
        lemma_occ_prefix(s.drop_last(), k, v);
    } else {
        assert(s.take(k) == s);
    }
}

pub(crate) proof fn lemma_occ_step(s: Seq<usize>, k: int, v: int)
    requires
        0 <= k < s.len(),
    ensures
        occ(s.take(k + 1), v) == occ(s.take(k), v) + if s[k] == v {
            1nat
        } else {
            0nat
        },
{
    assert(s.take(k + 1).drop_last() == s.take(k));
}

pub(crate) proof fn lemma_count_step(grid: Seq<Tile>, s: Seq<usize>, k: int, mine: bool)
    requires
        0 <= k < s.len(),
    ensures
        nbr_count(grid, s.take(k + 1), mine) == nbr_count(grid, s.take(k), mine) + if is_kind(
            grid[s[k] as int],
            mine,
        ) {
            1nat
        } else {
            0nat
        },
{
    assert(s.take(k + 1).drop_last() == s.take(k));
}

pub(crate) proof fn lemma_count_prefix(grid: Seq<Tile>, s: Seq<usize>, k: int, mine: bool)
    requires
        0 <= k <= s.len(),
    ensures
        nbr_count(grid, s.take(k), mine) <= nbr_count(grid, s, mine),
    decreases s.len(),
{
    if k < s.len() {
        assert(s.take(k) == s.drop_last().take(k));
        lemma_count_prefix(grid, s.drop_last(), k, mine);
    } else {
        assert(s.take(k) == s);
    }
}

/// Counting depends only on the kinds of the tiles; changing the kind at one position `x`
/// moves the count by the number of times `x` is listed.
pub(crate) proof fn lemma_count_change(g: Seq<Tile>, g2: Seq<Tile>, s: Seq<usize>, x: int, mine: bool)
    requires
        g.len() == g2.len(),
        in_grid(g, s),
        forall|i: int| 0 <= i < g.len() && i != x ==> is_kind(#[trigger] g[i], mine) == is_kind(g2[i], mine),
    ensures
        nbr_count(g2, s, mine) + (if is_kind(g[x], mine) {
            occ(s, x)
        } else {
            0
        }) == nbr_count(g, s, mine) + (if is_kind(g2[x], mine) {
            occ(s, x)
        } else {
            0
        }),
    decreases s.len(),
{
    if s.len() > 0 {
        assert(s.last() == s[s.len() - 1]);
        assert(in_grid(g, s.drop_last()));
        lemma_count_change(g, g2, s.drop_last(), x, mine);
    }
}

pub(crate) proof fn lemma_count_bounds(g: Seq<Tile>, s: Seq<usize>, x: int, mine: bool)
    ensures
        nbr_count(g, s, true) + nbr_count(g, s, false) <= s.len(),
        is_kind(g[x], mine) ==> occ(s, x) <= nbr_count(g, s, mine),
        !(g[x] is Empty) && !(g[x] is Mine) ==> nbr_count(g, s, true) + nbr_count(g, s, false)
            + occ(s, x) <= s.len(),
    decreases s.len(),
{
    if s.len() > 0 {
        lemma_count_bounds(g, s.drop_last(), x, mine);
    }
}

/// Tiles unaffected by a shift keep their kind.
pub(crate) proof fn lemma_shift_kind(t: Tile, drm: int, de: int)
    ensures
        is_kind(shift_hint(t, drm, de), true) == is_kind(t, true),
        is_kind(shift_hint(t, drm, de), false) == is_kind(t, false),
        shift_hint(t, drm, de) is Hint == t is Hint,
{
}

pub(crate) proof fn lemma_tile_count_step(grid: Seq<Tile>, k: int, mine: bool)
    requires
        0 <= k < grid.len(),
    ensures
        tile_count(grid.take(k + 1), mine) == tile_count(grid.take(k), mine) + if is_kind(
            grid[k],
            mine,
        ) {
            1nat
        } else {
            0nat
        },
{
    assert(grid.take(k + 1).drop_last() == grid.take(k));
}

// ---------------------------------------------------------------------------------------------
// Laws

/// On a board whose counters are consistent and whose graph is symmetric, flagging a tile
/// keeps the counters consistent.
pub proof fn law_flag_keeps_counters<G: Graph>(grid: Seq<Tile>, graph: G, tile: int)
    requires
        graph.graph_wf(),
        grid.len() == graph.spec_num_tiles(),
        0 <= tile < grid.len(),
        symmetric_graph(graph),
        counters_consistent(grid, graph),
        grid[tile] is Empty ==> shift_fits(grid, graph.spec_neighbors(tile), -1, -1),
    ensures
        counters_consistent(flagged_grid(grid, graph.spec_neighbors(tile), tile), graph),
{
    let nx = graph.spec_neighbors(tile);
    if grid[tile] is Empty {
        let g2 = flagged_grid(grid, nx, tile);
        assert forall|t: int| 0 <= t < g2.len() implies match #[trigger] g2[t] {
            Tile::Hint { hint, remaining_mines, empties } => empties == nbr_count(
                g2,
                graph.spec_neighbors(t),
                false,
            ) && hint == remaining_mines + nbr_count(g2, graph.spec_neighbors(t), true),
            _ => true,
        } by {
            if t != tile && grid[t] is Hint {
                let nt = graph.spec_neighbors(t);
                graph.lemma_neighbors_in_range(t);
                assert(in_grid(grid, nt));
                assert forall|i: int| 0 <= i < grid.len() && i != tile implies is_kind(
                    #[trigger] grid[i],
                    true,
                ) == is_kind(g2[i], true) && is_kind(grid[i], false) == is_kind(g2[i], false) by {
                    lemma_shift_kind(grid[i], signed_count(-1, occ(nx, i)), signed_count(-1, occ(nx, i)));
                }
                lemma_count_change(grid, g2, nt, tile, true);
                lemma_count_change(grid, g2, nt, tile, false);
                assert(occ(nx, t) == occ(nt, tile));
            }
        }
    }
}

/// On a board whose counters are consistent and whose graph is symmetric, asserting an
/// undecided tile safe keeps the counters consistent.
pub proof fn law_assert_keeps_counters<G: Graph>(grid: Seq<Tile>, graph: G, tile: int)
    requires
        graph.graph_wf(),
        grid.len() == graph.spec_num_tiles(),
        0 <= tile < grid.len(),
        symmetric_graph(graph),
        counters_consistent(grid, graph),
        grid[tile] is Empty,
    ensures
        counters_consistent(asserted_grid(grid, graph.spec_neighbors(tile), tile), graph),
{
    let nx = graph.spec_neighbors(tile);
    let g2 = asserted_grid(grid, nx, tile);
    assert forall|t: int| 0 <= t < g2.len() implies match #[trigger] g2[t] {
        Tile::Hint { hint, remaining_mines, empties } => empties == nbr_count(
            g2,
            graph.spec_neighbors(t),
            false,
        ) && hint == remaining_mines + nbr_count(g2, graph.spec_neighbors(t), true),
        _ => true,
    } by {
        if t != tile && grid[t] is Hint {
            let nt = graph.spec_neighbors(t);
            graph.lemma_neighbors_in_range(t);
            assert(in_grid(grid, nt));
            assert forall|i: int| 0 <= i < grid.len() && i != tile implies is_kind(
                #[trigger] grid[i],
                true,
            ) == is_kind(g2[i], true) && is_kind(grid[i], false) == is_kind(g2[i], false) by {
                lemma_shift_kind(grid[i], signed_count(0, occ(nx, i)), signed_count(-1, occ(nx, i)));
            }
            lemma_count_change(grid, g2, nt, tile, true);
            lemma_count_change(grid, g2, nt, tile, false);
            assert(occ(nx, t) == occ(nt, tile));
        }
    }
}

/// On a board whose counters are consistent and whose graph is symmetric, clearing a tile
/// keeps the counters consistent.
pub proof fn law_clear_keeps_counters<G: Graph>(grid: Seq<Tile>, graph: G, tile: int)
    requires
        graph.graph_wf(),
        grid.len() == graph.spec_num_tiles(),
        0 <= tile < grid.len(),
        symmetric_graph(graph),
        counters_consistent(grid, graph),
        clear_fits(grid, graph.spec_neighbors(tile), tile),
    ensures
        counters_consistent(cleared_grid(grid, graph.spec_neighbors(tile), tile), graph),
{
    let nx = graph.spec_neighbors(tile);
    let g2 = cleared_grid(grid, nx, tile);
    if !(grid[tile] is Empty) {
        let drm: int = if grid[tile] is Mine {
            1
        } else {
            0
        };
        assert forall|t: int| 0 <= t < g2.len() implies match #[trigger] g2[t] {
            Tile::Hint { hint, remaining_mines, empties } => empties == nbr_count(
                g2,
                graph.spec_neighbors(t),
                false,
            ) && hint == remaining_mines + nbr_count(g2, graph.spec_neighbors(t), true),
            _ => true,
        } by {
            if t != tile && grid[t] is Hint {
                let nt = graph.spec_neighbors(t);
                graph.lemma_neighbors_in_range(t);
                assert(in_grid(grid, nt));
                assert forall|i: int| 0 <= i < grid.len() && i != tile implies is_kind(
                    #[trigger] grid[i],
                    true,
                ) == is_kind(g2[i], true) && is_kind(grid[i], false) == is_kind(g2[i], false) by {
                    lemma_shift_kind(grid[i], signed_count(drm, occ(nx, i)), signed_count(1, occ(nx, i)));
                }
                lemma_count_change(grid, g2, nt, tile, true);
                lemma_count_change(grid, g2, nt, tile, false);
                assert(occ(nx, t) == occ(nt, tile));
            }
        }
    }
}

/// On a board whose counters are consistent and whose graph is symmetric, a hint placed
/// successfully on an undecided tile leaves the counters consistent.
pub proof fn law_place_keeps_counters<G: Graph>(grid: Seq<Tile>, graph: G, tile: int, hint: u8)
    requires
        graph.graph_wf(),
        grid.len() == graph.spec_num_tiles(),
        0 <= tile < grid.len(),
        symmetric_graph(graph),
        counters_consistent(grid, graph),
        grid[tile] is Empty,
        place_fits(grid, graph.spec_neighbors(tile)),
        placed_grid(grid, graph.spec_neighbors(tile), tile, hint).0 is Some,
    ensures
        counters_consistent(placed_grid(grid, graph.spec_neighbors(tile), tile, hint).1, graph),
{
    let nx = graph.spec_neighbors(tile);
    let g2 = placed_grid(grid, nx, tile, hint).1;
    graph.lemma_neighbors_in_range(tile);
    assert forall|t: int| 0 <= t < g2.len() implies match #[trigger] g2[t] {
        Tile::Hint { hint, remaining_mines, empties } => empties == nbr_count(
            g2,
            graph.spec_neighbors(t),
            false,
        ) && hint == remaining_mines + nbr_count(g2, graph.spec_neighbors(t), true),
        _ => true,
    } by {
        let nt = graph.spec_neighbors(t);
        graph.lemma_neighbors_in_range(t);
        assert(in_grid(grid, nt));
        assert forall|i: int| 0 <= i < grid.len() && i != tile implies is_kind(
            #[trigger] grid[i],
            true,
        ) == is_kind(g2[i], true) && is_kind(grid[i], false) == is_kind(g2[i], false) by {
            lemma_shift_kind(grid[i], signed_count(0, occ(nx, i)), signed_count(-1, occ(nx, i)));
        }
        lemma_count_change(grid, g2, nt, tile, true);
        lemma_count_change(grid, g2, nt, tile, false);
        if t != tile && grid[t] is Hint {
            assert(occ(nx, t) == occ(nt, tile));
        }
    }
}

/// On a consistent board of a graph whose degrees fit in `u8`, clearing any tile never
/// overflows a counter, and placing a hint on an undecided tile never overflows one either.
pub proof fn law_consistent_ops_fit<G: Graph>(grid: Seq<Tile>, graph: G, tile: int)
    requires
        graph.graph_wf(),
        grid.len() == graph.spec_num_tiles(),
        0 <= tile < grid.len(),
        symmetric_graph(graph),
        degrees_fit(graph),
        counters_consistent(grid, graph),
    ensures
        clear_fits(grid, graph.spec_neighbors(tile), tile),
        grid[tile] is Empty ==> place_fits(grid, graph.spec_neighbors(tile)),
{
    let nx = graph.spec_neighbors(tile);
    lemma_count_bounds(grid, nx, tile, true);
    if !(grid[tile] is Empty) {
        let de: int = 1;
        let drm: int = if grid[tile] is Mine {
            1
        } else {
            0
        };
        assert forall|i: int| 0 <= i < grid.len() implies match #[trigger] grid[i] {
            Tile::Hint { remaining_mines, empties, .. } => 0 <= remaining_mines + signed_count(drm, occ(nx, i))
                <= u8::MAX && 0 <= empties + signed_count(de, occ(nx, i)) <= u8::MAX,
            _ => true,
        } by {
            if grid[i] is Hint {
                let ni = graph.spec_neighbors(i);
                lemma_count_bounds(grid, ni, tile, true);
                lemma_count_bounds(grid, ni, tile, false);
                assert(occ(nx, i) == occ(ni, tile));
                assert(ni.len() <= u8::MAX);
            }
        }
    } else {
        assert forall|i: int| 0 <= i < grid.len() implies match #[trigger] grid[i] {
            Tile::Hint { remaining_mines, empties, .. } => 0 <= remaining_mines + signed_count(0, occ(nx, i))
                <= u8::MAX && 0 <= empties + signed_count(-1, occ(nx, i)) <= u8::MAX,
            _ => true,
        } by {
            if grid[i] is Hint {
                let ni = graph.spec_neighbors(i);
                lemma_count_bounds(grid, ni, tile, false);
                assert(occ(nx, i) == occ(ni, tile));
            }
        }
        assert(nx.len() <= u8::MAX);
    }
}

/// Clearing a tile just flagged gives back the grid it was flagged on.
pub proof fn law_clear_undoes_flag(grid: Seq<Tile>, nbrs: Seq<usize>, tile: int)
    requires
        0 <= tile < grid.len(),
        grid[tile] is Empty,
        shift_fits(grid, nbrs, -1, -1),
    ensures
        cleared_grid(flagged_grid(grid, nbrs, tile), nbrs, tile) == grid,
{
    let f = flagged_grid(grid, nbrs, tile);
    let c = cleared_grid(f, nbrs, tile);
    assert forall|i: int| 0 <= i < grid.len() implies c[i] == grid[i] by {
        if i != tile {
            assert(f[i] == shift_hint(grid[i], signed_count(-1, occ(nbrs, i)), signed_count(-1, occ(nbrs, i))));
        }
    }
    assert(c =~= grid);
}

/// Clearing a tile just asserted safe gives back the grid it was asserted on.
pub proof fn law_clear_undoes_assert(grid: Seq<Tile>, nbrs: Seq<usize>, tile: int)
    requires
        0 <= tile < grid.len(),
        grid[tile] is Empty,
        shift_fits(grid, nbrs, 0, -1),
    ensures
        cleared_grid(asserted_grid(grid, nbrs, tile), nbrs, tile) == grid,
{
    let a = asserted_grid(grid, nbrs, tile);
    let c = cleared_grid(a, nbrs, tile);
    assert forall|i: int| 0 <= i < grid.len() implies c[i] == grid[i] by {
        if i != tile {
            assert(a[i] == shift_hint(grid[i], signed_count(0, occ(nbrs, i)), signed_count(0 - 1, occ(nbrs, i))));
        }
    }
    assert(c =~= grid);
}

/// Clearing a tile just given a hint gives back the grid the hint was placed on.
pub proof fn law_clear_undoes_place(grid: Seq<Tile>, nbrs: Seq<usize>, tile: int, hint: u8)
    requires
        0 <= tile < grid.len(),
        grid[tile] is Empty,
        place_fits(grid, nbrs),
        placed_grid(grid, nbrs, tile, hint).0 is Some,
    ensures
        cleared_grid(placed_grid(grid, nbrs, tile, hint).1, nbrs, tile) == grid,
{
    let p = placed_grid(grid, nbrs, tile, hint).1;
    let c = cleared_grid(p, nbrs, tile);
    assert forall|i: int| 0 <= i < grid.len() implies c[i] == grid[i] by {
        if i != tile {
            assert(p[i] == shift_hint(grid[i], signed_count(0, occ(nbrs, i)), signed_count(0 - 1, occ(nbrs, i))));
        }
    }
    assert(c =~= grid);
}

/// Normalizing twice is normalizing once, and a normalized board has no flagged mines.
pub proof fn law_normalize_idempotent(grid: Seq<Tile>)
    ensures
        Seq::new(grid.len(), |i: int| normalized_tile(normalized_tile(grid[i]))) == Seq::new(
            grid.len(),
            |i: int| normalized_tile(grid[i]),
        ),
        tile_count(Seq::new(grid.len(), |i: int| normalized_tile(grid[i])), true) == 0,
{
    let n1 = Seq::new(grid.len(), |i: int| normalized_tile(grid[i]));
    let n2 = Seq::new(grid.len(), |i: int| normalized_tile(normalized_tile(grid[i])));
    assert(n2 =~= n1);
    lemma_no_mines_count(n1);
}

/// A list of tiles counts the same on two grids whose tiles have the same kinds.
proof fn lemma_count_same_kinds(g1: Seq<Tile>, g2: Seq<Tile>, s: Seq<usize>, mine: bool)
    requires
        g1.len() == g2.len(),
        forall|i: int| 0 <= i < g1.len() ==> is_kind(#[trigger] g1[i], mine) == is_kind(g2[i], mine),
        forall|i: int| 0 <= i < s.len() ==> #[trigger] s[i] < g1.len(),
    ensures
        nbr_count(g1, s, mine) == nbr_count(g2, s, mine),
    decreases s.len(),
{
    if s.len() > 0 {
        lemma_count_same_kinds(g1, g2, s.drop_last(), mine);
        assert(s[s.len() - 1] < g1.len());
    }
}

/// A list of tiles counts no flagged mine on a grid without one.
proof fn lemma_count_no_mines(g: Seq<Tile>, s: Seq<usize>)
    requires
        forall|i: int| 0 <= i < g.len() ==> !(#[trigger] g[i] is Mine),
        forall|i: int| 0 <= i < s.len() ==> #[trigger] s[i] < g.len(),
    ensures
        nbr_count(g, s, true) == 0,
    decreases s.len(),
{
    if s.len() > 0 {
        lemma_count_no_mines(g, s.drop_last());
        assert(s[s.len() - 1] < g.len());
    }
}

/// Normalizing keeps the hint counters consistent: the fresh puzzle has no flagged tile, so
/// each of its hints shows exactly the mines still to be found around it (the old number less
/// the flagged neighbours), and counts the same undecided neighbours as before; a hint with
/// no mine left around it becomes a plain safe tile.
pub proof fn law_normalize_keeps_counters<G: Graph>(grid: Seq<Tile>, graph: G)
    requires
        graph.graph_wf(),
        grid.len() == graph.spec_num_tiles(),
        counters_consistent(grid, graph),
    ensures
        counters_consistent(Seq::new(grid.len(), |i: int| normalized_tile(grid[i])), graph),
        forall|t: int|
            0 <= t < grid.len() ==> match #[trigger] grid[t] {
                Tile::Hint { hint, empties, .. } => {
                    let left = hint - nbr_count(grid, graph.spec_neighbors(t), true);
                    if left == 0 {
                        normalized_tile(grid[t]) == (Tile::AssertHint { needs_propogate: false })
                    } else {
                        normalized_tile(grid[t]) == (Tile::Hint { hint: left as u8, remaining_mines: left as u8, empties })
                    }
                },
                _ => true,
            },
{
    let ng = Seq::new(grid.len(), |i: int| normalized_tile(grid[i]));
    assert forall|i: int| 0 <= i < grid.len() implies is_kind(#[trigger] grid[i], false) == is_kind(ng[i], false) by {}
    assert forall|i: int| 0 <= i < ng.len() implies !(#[trigger] ng[i] is Mine) by {}
    assert forall|t: int| 0 <= t < ng.len() implies match #[trigger] ng[t] {
        Tile::Hint { hint, remaining_mines, empties } => empties == nbr_count(ng, graph.spec_neighbors(t), false) && hint
            == remaining_mines + nbr_count(ng, graph.spec_neighbors(t), true),
        _ => true,
    } by {
        if ng[t] is Hint {
            let nb = graph.spec_neighbors(t);
            graph.lemma_neighbors_in_range(t);
            assert(grid[t] is Hint);
            lemma_count_same_kinds(grid, ng, nb, false);
            lemma_count_no_mines(ng, nb);
        }
    }
}

proof fn lemma_no_mines_count(g: Seq<Tile>)
    requires
        forall|i: int| 0 <= i < g.len() ==> !(#[trigger] g[i] is Mine),
    ensures
        tile_count(g, true) == 0,
    decreases g.len(),
{
    if g.len() > 0 {
        assert forall|i: int| 0 <= i < g.len() - 1 implies !(#[trigger] g.drop_last()[i] is Mine) by {
            assert(g.drop_last()[i] == g[i]);
        }
        lemma_no_mines_count(g.drop_last());
        assert(!(g[g.len() - 1] is Mine));
    }
}

/// Every grid is a state that it can turn into.
pub proof fn law_subset_reflexive(grid: Seq<Tile>)
    ensures
        spec_is_grid_subset_of(grid, grid),
{
    assert forall|i: int| 0 <= i < grid.len() && i < grid.len() implies #[trigger] grid[i].spec_subset_of(grid[i]) by {}
}

/// A state that a state of `c` can turn into is itself a state `c` can turn into.
pub proof fn law_subset_transitive(a: Seq<Tile>, b: Seq<Tile>, c: Seq<Tile>)
    requires
        a.len() == b.len(),
        b.len() == c.len(),
        spec_is_grid_subset_of(a, b),
        spec_is_grid_subset_of(b, c),
    ensures
        spec_is_grid_subset_of(a, c),
{
    assert forall|i: int| 0 <= i < a.len() && i < c.len() implies #[trigger] a[i].spec_subset_of(c[i]) by {
        assert(a[i].spec_subset_of(b[i]));
        assert(b[i].spec_subset_of(c[i]));
    }
}

/// Grids whose tiles are of the same kinds hold as many tiles of each kind.
pub(crate) proof fn lemma_tile_count_same_kinds(a: Seq<Tile>, b: Seq<Tile>, mine: bool)
    requires
        a.len() == b.len(),
        forall|i: int| 0 <= i < a.len() ==> is_kind(#[trigger] a[i], mine) == is_kind(b[i], mine),
    ensures
        tile_count(a, mine) == tile_count(b, mine),
    decreases a.len(),
{
    if a.len() > 0 {
        assert forall|i: int| 0 <= i < a.len() - 1 implies is_kind(#[trigger] a.drop_last()[i], mine) == is_kind(
            b.drop_last()[i],
            mine,
        ) by {
            assert(a.drop_last()[i] == a[i]);
        }
        lemma_tile_count_same_kinds(a.drop_last(), b.drop_last(), mine);
        assert(is_kind(a[a.len() - 1], mine) == is_kind(b[b.len() - 1], mine));
    }
}

/// Changing one tile changes the count of a kind by what the tile was and what it became.
proof fn lemma_tile_count_update(g: Seq<Tile>, t: int, x: Tile, mine: bool)
    requires
        0 <= t < g.len(),
    ensures
        tile_count(g.update(t, x), mine) + (if is_kind(g[t], mine) { 1int } else { 0int }) == tile_count(g, mine) + (
        if is_kind(x, mine) {
            1int
        } else {
            0int
        }),
    decreases g.len(),
{
    let u = g.update(t, x);
    if t == g.len() - 1 {
        assert(u.drop_last() =~= g.drop_last());
    } else {
        assert(u.drop_last() =~= g.drop_last().update(t, x));
        lemma_tile_count_update(g.drop_last(), t, x, mine);
    }
}

/// Flagging an undecided tile adds one flagged mine and removes one undecided tile; no other
/// tile changes kind.
pub proof fn law_flag_counts(grid: Seq<Tile>, nbrs: Seq<usize>, tile: int)
    requires
        0 <= tile < grid.len(),
        grid[tile] is Empty,
    ensures
        tile_count(flagged_grid(grid, nbrs, tile), true) == tile_count(grid, true) + 1,
        tile_count(flagged_grid(grid, nbrs, tile), false) + 1 == tile_count(grid, false),
{
    let s = shifted(grid, nbrs, -1, -1);
    assert forall|i: int| 0 <= i < s.len() implies is_kind(#[trigger] s[i], true) == is_kind(grid[i], true) && is_kind(
        s[i],
        false,
    ) == is_kind(grid[i], false) by {
        lemma_shift_kind(grid[i], signed_count(-1, occ(nbrs, i)), signed_count(-1, occ(nbrs, i)));
    }
    lemma_tile_count_same_kinds(s, grid, true);
    lemma_tile_count_same_kinds(s, grid, false);
    lemma_tile_count_update(s, tile, Tile::Mine { needs_propogate: true }, true);
    lemma_tile_count_update(s, tile, Tile::Mine { needs_propogate: true }, false);
}

// ---------------------------------------------------------------------------------------------
// The board

/// What the solver knows of a game: one `Tile` per tile of `graph`, and the total number of
/// mines.
#[derive(Clone, Debug, PartialEq, Eq, Hash)]
pub struct Board<G: Graph> {
    pub grid: Vec<Tile>,
    pub graph: G,
    pub num_mines: usize,
}

/// Moves the counters of every hint listed in `nbrs` by `drm` and `de`, once per listing.
fn shift_hints(grid: &mut Vec<Tile>, nbrs: &Vec<usize>, drm: i8, de: i8)
    requires
        -1 <= drm <= 1,
        -1 <= de <= 1,
        in_grid(old(grid)@, nbrs@),
        shift_fits(old(grid)@, nbrs@, drm as int, de as int),
    ensures
        final(grid)@ == shifted(old(grid)@, nbrs@, drm as int, de as int),
{
    let ghost g0 = grid@;
    assert(grid@ =~= shifted(g0, nbrs@.take(0), drm as int, de as int));
    let mut k: usize = 0;
    while k < nbrs.len()
        invariant
            k <= nbrs@.len(),
            in_grid(g0, nbrs@),
            shift_fits(g0, nbrs@, drm as int, de as int),
            -1 <= drm <= 1,
            -1 <= de <= 1,
            grid@ == shifted(g0, nbrs@.take(k as int), drm as int, de as int),
        decreases nbrs.len() - k,
    {
        let n = nbrs[k];
        proof {
            lemma_occ_step(nbrs@, k as int, n as int);
            lemma_occ_prefix(nbrs@, k + 1, n as int);
        }
        if let Tile::Hint { hint, remaining_mines, empties } = grid[n] {
            let rm = if drm == 1 {
                remaining_mines + 1
            } else if drm == -1 {
                remaining_mines - 1
            } else {
                remaining_mines
            };
            let e = if de == 1 {
                empties + 1
            } else if de == -1 {
                empties - 1
            } else {
                empties
            };
            grid.set(n, Tile::Hint { hint, remaining_mines: rm, empties: e });
        }
        proof {
            let target = shifted(g0, nbrs@.take(k + 1), drm as int, de as int);
            assert forall|i: int| 0 <= i < g0.len() implies grid@[i] == target[i] by {
                lemma_occ_step(nbrs@, k as int, i);
                lemma_occ_prefix(nbrs@, k + 1, i);
            }
            assert(grid@ =~= target);
        }
        k = k + 1;
    }
    assert(nbrs@.take(nbrs@.len() as int) == nbrs@);
}

impl<G: Graph> Board<G> {
    /// The grid has one tile per tile of the graph, and the graph is usable.
    pub open spec fn wf(&self) -> bool {
        &&& self.graph.graph_wf()
        &&& self.grid@.len() == self.graph.spec_num_tiles()
    }

    /// The neighbours of tile `t`.
    pub open spec fn nbrs(&self, t: int) -> Seq<usize> {
        self.graph.spec_neighbors(t)
    }

    /// A board with every tile undecided.
    pub fn new(graph: G, num_mines: usize) -> (r: Self)
        requires
            graph.graph_wf(),
        ensures
            r.grid@ == Seq::new(graph.spec_num_tiles(), |i: int| Tile::Empty),
            r.graph == graph,
            r.num_mines == num_mines,
            r.wf(),
    {
        let n = graph.num_tiles();
        let mut grid: Vec<Tile> = Vec::new();
        let mut i: usize = 0;
        while i < n
            invariant
                i <= n,
                grid@ == Seq::new(i as nat, |j: int| Tile::Empty),
            decreases n - i,
        {
            grid.push(Tile::Empty);
            i = i + 1;
            assert(grid@ =~= Seq::new(i as nat, |j: int| Tile::Empty));
        }
        Board { grid, graph, num_mines }
    }

    pub fn from_grid(grid: Vec<Tile>, graph: G, num_mines: usize) -> (r: Self)
        ensures
            r.grid == grid,
            r.graph == graph,
            r.num_mines == num_mines,
    {
        Board { grid, graph, num_mines }
    }

    /// A board with every tile undecided, for the graph and number of mines of `game`.
    pub fn from_game<Ga: Game<Graph = G>>(game: &Ga) -> (r: Self)
        requires
            game.spec_graph().graph_wf(),
        ensures
            same_graph_as(r.graph, game.spec_graph()),
            r.num_mines == game.spec_num_mines(),
            r.grid@ == Seq::new(r.graph.spec_num_tiles(), |i: int| Tile::Empty),
    {
        let g = game.graph().clone_graph();
        Self::new(g, game.num_mines())
    }

    /// Places the hint `hint` on `tile`, after clearing whatever was there. Returns `None`
    /// when the hint contradicts the neighbours (more flagged neighbours than `hint`, or too
    /// few undecided ones to hold the rest); the tile is then left undecided.
    pub fn set_tile(&mut self, tile: usize, hint: u8) -> (r: Option<()>)
        requires
            old(self).wf(),
            tile < old(self).grid@.len(),
            clear_fits(old(self).grid@, old(self).nbrs(tile as int), tile as int),
            place_fits(
                cleared_grid(old(self).grid@, old(self).nbrs(tile as int), tile as int),
                old(self).nbrs(tile as int),
            ),
        ensures
            ({
                let placed = placed_grid(
                    cleared_grid(old(self).grid@, old(self).nbrs(tile as int), tile as int),
                    old(self).nbrs(tile as int),
                    tile as int,
                    hint,
                );
                r == placed.0 && final(self).grid@ == placed.1
            }),
            final(self).graph == old(self).graph,
            final(self).num_mines == old(self).num_mines,
    {
        self.clear_tile(tile);
        let nbrs = self.graph.neighbors(tile);
        proof {
            self.graph.lemma_neighbors_in_range(tile as int);
        }
        let ghost g1 = self.grid@;
        let mut mines: u8 = 0;
        let mut empties: u8 = 0;
        let mut k: usize = 0;
        while k < nbrs.len()
            invariant
                self.wf(),
                k <= nbrs@.len(),
                nbrs@ == self.nbrs(tile as int),
                in_grid(g1, nbrs@),
                g1.len() == self.grid@.len(),
                g1[tile as int] is Empty,
                place_fits(g1, nbrs@),
                self.grid@ == shifted(g1, nbrs@.take(k as int), 0, -1),
                mines == nbr_count(g1, nbrs@.take(k as int), true),
                empties == nbr_count(g1, nbrs@.take(k as int), false),
                self.graph == old(self).graph,
                self.num_mines == old(self).num_mines,
            decreases nbrs.len() - k,
        {
            let n = nbrs[k];
            proof {
                lemma_occ_step(nbrs@, k as int, n as int);
                lemma_occ_prefix(nbrs@, k + 1, n as int);
                lemma_count_step(g1, nbrs@, k as int, true);
                lemma_count_step(g1, nbrs@, k as int, false);
                lemma_count_prefix(g1, nbrs@, k + 1, true);
                lemma_count_prefix(g1, nbrs@, k + 1, false);
            }
            match self.grid[n] {
                Tile::Mine { .. } => {
                    mines = mines + 1;
                },
                Tile::Empty => {
                    empties = empties + 1;
                },
                Tile::Hint { hint: h, remaining_mines, empties: e } => {
                    self.grid.set(n, Tile::Hint { hint: h, remaining_mines, empties: e - 1 });
                },
                _ => {},
            }
            proof {
                let target = shifted(g1, nbrs@.take(k + 1), 0, -1);
                assert forall|i: int| 0 <= i < g1.len() implies self.grid@[i] == target[i] by {
                    lemma_occ_step(nbrs@, k as int, i);
                    lemma_occ_prefix(nbrs@, k + 1, i);
                }
                assert(self.grid@ =~= target);
            }
            k = k + 1;
        }
        assert(nbrs@.take(nbrs@.len() as int) == nbrs@);
        if mines > hint || empties < hint - mines {
            return None;
        }
        self.grid.set(tile, Tile::Hint { hint, remaining_mines: hint - mines, empties });
        Some(())
    }

    /// Marks the undecided `tile` as safe without learning its hint.
    pub fn assert_tile(&mut self, tile: usize)
        requires
            old(self).wf(),
            tile < old(self).grid@.len(),
            old(self).grid@[tile as int] is Empty,
            shift_fits(old(self).grid@, old(self).nbrs(tile as int), 0, -1),
        ensures
            final(self).grid@ == asserted_grid(old(self).grid@, old(self).nbrs(tile as int), tile as int),
            final(self).graph == old(self).graph,
            final(self).num_mines == old(self).num_mines,
    {
        let ghost g0 = self.grid@;
        let nbrs = self.graph.neighbors(tile);
        proof {
            self.graph.lemma_neighbors_in_range(tile as int);
        }
        self.grid.set(tile, Tile::AssertHint { needs_propogate: true });
        let ghost g1 = self.grid@;
        proof {
            assert forall|i: int| 0 <= i < g1.len() implies match #[trigger] g1[i] {
                Tile::Hint { remaining_mines, empties, .. } => 0 <= remaining_mines + signed_count(0, occ(nbrs@, i))
                    <= u8::MAX && 0 <= empties + signed_count(-1, occ(nbrs@, i)) <= u8::MAX,
                _ => true,
            } by {
                if i != tile {
                    assert(g1[i] == g0[i]);
                }
            }
        }
        shift_hints(&mut self.grid, &nbrs, 0, -1);
        proof {
            assert(self.grid@ =~= asserted_grid(g0, nbrs@, tile as int));
        }
    }

    /// Makes `tile` undecided again, undoing its effect on the neighbouring hints.
    pub fn clear_tile(&mut self, tile: usize)
        requires
            old(self).wf(),
            tile < old(self).grid@.len(),
            clear_fits(old(self).grid@, old(self).nbrs(tile as int), tile as int),
        ensures
            final(self).grid@ == cleared_grid(old(self).grid@, old(self).nbrs(tile as int), tile as int),
            final(self).graph == old(self).graph,
            final(self).num_mines == old(self).num_mines,
    {
        let ghost g0 = self.grid@;
        match self.grid[tile] {
            Tile::Hint { .. } | Tile::AssertHint { .. } => {
                let nbrs = self.graph.neighbors(tile);
                proof {
                    self.graph.lemma_neighbors_in_range(tile as int);
                }
                shift_hints(&mut self.grid, &nbrs, 0, 1);
                self.grid.set(tile, Tile::Empty);
            },
            Tile::Mine { .. } => {
                let nbrs = self.graph.neighbors(tile);
                proof {
                    self.graph.lemma_neighbors_in_range(tile as int);
                }
                shift_hints(&mut self.grid, &nbrs, 1, 1);
                self.grid.set(tile, Tile::Empty);
            },
            Tile::Empty => {},
        }
    }

    /// Flags the undecided `tile` as a mine; does nothing to a tile that is not undecided.
    pub fn flag_tile(&mut self, tile: usize)
        requires
            old(self).wf(),
            tile < old(self).grid@.len(),
            old(self).grid@[tile as int] is Empty ==> shift_fits(
                old(self).grid@,
                old(self).nbrs(tile as int),
                -1,
                -1,
            ),
        ensures
            final(self).grid@ == flagged_grid(old(self).grid@, old(self).nbrs(tile as int), tile as int),
            final(self).graph == old(self).graph,
            final(self).num_mines == old(self).num_mines,
    {
        let ghost g0 = self.grid@;
        match self.grid[tile] {
            Tile::Empty => {},
            _ => {
                return ;
            },
        }
        let nbrs = self.graph.neighbors(tile);
        proof {
            self.graph.lemma_neighbors_in_range(tile as int);
        }
        self.grid.set(tile, Tile::Mine { needs_propogate: true });
        let ghost g1 = self.grid@;
        proof {
            assert forall|i: int| 0 <= i < g1.len() implies match #[trigger] g1[i] {
                Tile::Hint { remaining_mines, empties, .. } => 0 <= remaining_mines + signed_count(-1, occ(nbrs@, i))
                    <= u8::MAX && 0 <= empties + signed_count(-1, occ(nbrs@, i)) <= u8::MAX,
                _ => true,
            } by {
                if i != tile {
                    assert(g1[i] == g0[i]);
                }
            }
        }
        shift_hints(&mut self.grid, &nbrs, -1, -1);
        proof {
            assert(self.grid@ =~= flagged_grid(g0, nbrs@, tile as int));
        }
    }

    /// The number of mines not yet flagged.
    pub fn remaining_mines(&self) -> (r: usize)
        requires
            tile_count(self.grid@, true) <= self.num_mines,
        ensures
            r == self.num_mines - tile_count(self.grid@, true),
    {
        let mut placed: usize = 0;
        let mut i: usize = 0;
        while i < self.grid.len()
            invariant
                i <= self.grid@.len(),
                placed == tile_count(self.grid@.take(i as int), true),
                tile_count(self.grid@, true) <= self.num_mines,
            decreases self.grid.len() - i,
        {
            proof {
                lemma_tile_count_step(self.grid@, i as int, true);
                lemma_tile_count_prefix(self.grid@, i + 1, true);
            }
            if let Tile::Mine { .. } = self.grid[i] {
                placed = placed + 1;
            }
            i = i + 1;
        }
        assert(self.grid@.take(self.grid@.len() as int) == self.grid@);
        self.num_mines - placed
    }

    /// The number of undecided tiles.
    pub fn remaining_empty_tiles(&self) -> (r: usize)
        ensures
            r == tile_count(self.grid@, false),
    {
        let mut count: usize = 0;
        let mut i: usize = 0;
        while i < self.grid.len()
            invariant
                i <= self.grid@.len(),
                count == tile_count(self.grid@.take(i as int), false),
            decreases self.grid.len() - i,
        {
            proof {
                lemma_tile_count_step(self.grid@, i as int, false);
                lemma_tile_count_prefix(self.grid@, i + 1, false);
                lemma_tile_count_le(self.grid@.take(i + 1), false);
            }
            if let Tile::Empty = self.grid[i] {
                count = count + 1;
            }
            i = i + 1;
        }
        assert(self.grid@.take(self.grid@.len() as int) == self.grid@);
        count
    }

    /// Every undecided tile must hold a mine: as many undecided tiles as mines left.
    pub fn is_solved(&self) -> (r: bool)
        requires
            tile_count(self.grid@, true) <= self.num_mines,
        ensures
            r == (tile_count(self.grid@, false) == self.num_mines - tile_count(self.grid@, true)),
    {
        self.remaining_empty_tiles() == self.remaining_mines()
    }

    /// A copy of the board, on a copy of its graph.
    pub fn copy(&self) -> (r: Self)
        ensures
            r.grid@ == self.grid@,
            same_graph_as(r.graph, self.graph),
            r.num_mines == self.num_mines,
    {
        let mut grid: Vec<Tile> = Vec::new();
        let mut i: usize = 0;
        while i < self.grid.len()
            invariant
                i <= self.grid@.len(),
                grid@ == self.grid@.take(i as int),
            decreases self.grid.len() - i,
        {
            grid.push(self.grid[i]);
            i = i + 1;
            assert(grid@ == self.grid@.take(i as int));
        }
        assert(grid@ == self.grid@);
        Board { grid, graph: self.graph.clone_graph(), num_mines: self.num_mines }
    }

    /// `self` is a state that `other` can still turn into.
    pub fn subset_of(&self, other: &Self) -> (r: bool)
        ensures
            r == (self.num_mines == other.num_mines && spec_is_grid_subset_of(self.grid@, other.grid@)),
    {
        self.num_mines == other.num_mines && is_grid_subset_of(self.grid.as_slice(), other.grid.as_slice())
    }

    /// The same position seen as a fresh puzzle: flagged mines become safe tiles, hints count
    /// only their remaining mines, and only the remaining mines are left to find.
    pub fn normalize(&self) -> (r: Self)
        requires
            tile_count(self.grid@, true) <= self.num_mines,
        ensures
            r.grid@ == Seq::new(self.grid@.len(), |i: int| normalized_tile(self.grid@[i])),
            same_graph_as(r.graph, self.graph),
            r.num_mines == self.num_mines - tile_count(self.grid@, true),
            self.graph.graph_wf() && self.grid@.len() == self.graph.spec_num_tiles() && counters_consistent(
                self.grid@,
                self.graph,
            ) ==> counters_consistent(r.grid@, r.graph),
    {
        let mut grid: Vec<Tile> = Vec::new();
        let mut i: usize = 0;
        while i < self.grid.len()
            invariant
                i <= self.grid@.len(),
                grid@ == Seq::new(i as nat, |j: int| normalized_tile(self.grid@[j])),
            decreases self.grid.len() - i,
        {
            let t = match self.grid[i] {
                Tile::Mine { needs_propogate } => Tile::AssertHint { needs_propogate },
                Tile::Hint { remaining_mines, empties, .. } => if remaining_mines == 0 {
                    Tile::AssertHint { needs_propogate: false }
                } else {
                    Tile::Hint { hint: remaining_mines, remaining_mines, empties }
                },
                tile => tile,
            };
            grid.push(t);
            i = i + 1;
            assert(grid@ =~= Seq::new(i as nat, |j: int| normalized_tile(self.grid@[j])));
        }
        let graph = self.graph.clone_graph();
        proof {
            if self.graph.graph_wf() && self.grid@.len() == self.graph.spec_num_tiles() && counters_consistent(
                self.grid@,
                self.graph,
            ) {
                law_normalize_keeps_counters(self.grid@, self.graph);
                assert forall|t: int| 0 <= t < grid@.len() implies #[trigger] graph.spec_neighbors(t) == self.graph.spec_neighbors(t) by {}
            }
        }
        Board { grid, graph, num_mines: self.remaining_mines() }
    }
}

impl<G: Graph> Graph for Board<G> {
    open spec fn spec_num_tiles(&self) -> nat {
        self.graph.spec_num_tiles()
    }

    open spec fn spec_neighbors(&self, pos: int) -> Seq<usize> {
        self.graph.spec_neighbors(pos)
    }

    open spec fn graph_wf(&self) -> bool {
        self.graph.graph_wf()
    }

    proof fn lemma_neighbors_in_range(&self, pos: int) {
        self.graph.lemma_neighbors_in_range(pos);
    }

    fn num_tiles(&self) -> (n: usize) {
        self.graph.num_tiles()
    }

    fn neighbors(&self, pos: usize) -> (r: Vec<usize>) {
        self.graph.neighbors(pos)
    }

    fn clone_graph(&self) -> (r: Self) {
        let mut grid: Vec<Tile> = Vec::new();
        let mut i: usize = 0;
        while i < self.grid.len()
            invariant
                i <= self.grid@.len(),
                grid@ == self.grid@.take(i as int),
            decreases self.grid.len() - i,
        {
            grid.push(self.grid[i]);
            i = i + 1;
            assert(grid@ == self.grid@.take(i as int));
        }
        Board { grid, graph: self.graph.clone_graph(), num_mines: self.num_mines }
    }
}

pub(crate) proof fn lemma_tile_count_prefix(grid: Seq<Tile>, k: int, mine: bool)
    requires
        0 <= k <= grid.len(),
    ensures
        tile_count(grid.take(k), mine) <= tile_count(grid, mine),
    decreases grid.len(),
{
    if k < grid.len() {
        assert(grid.take(k) == grid.drop_last().take(k));
        lemma_tile_count_prefix(grid.drop_last(), k, mine);
    } else {
        assert(grid.take(k) == grid);
    }
}

proof fn lemma_tile_count_le(grid: Seq<Tile>, mine: bool)
    ensures
        tile_count(grid, mine) <= grid.len(),
    decreases grid.len(),
{
    if grid.len() > 0 {
        lemma_tile_count_le(grid.drop_last(), mine);
    }
}

} // verus!
