use vstd::prelude::*;
use crate::bits::{true_count, indicator, lemma_indicator_count};
use crate::bitset::{BitSet, len_fits};
use crate::graph::{Graph, same_graph_as};

verus! {

/// A game of minesweeper as the solver sees it: a graph of tiles, a number of mines, and a
/// way to uncover a tile.
pub trait Game {
    type Graph: Graph;

    spec fn spec_graph(&self) -> Self::Graph;

    spec fn spec_num_mines(&self) -> nat;

    /// The states in which tile `pos` may be uncovered.
    spec fn can_explore(&self, pos: int) -> bool;

    /// The game's mines, once they are placed.
    spec fn spec_mines(&self) -> Option<Seq<bool>>;

    /// The tiles uncovered so far, in order, each with the answer the game gave.
    spec fn spec_answers(&self) -> Seq<(int, Option<u8>)>;

    fn graph(&self) -> (r: &Self::Graph)
        ensures
            *r == self.spec_graph(),
    ;

    /// Uncovers tile `pos`: `None` when it holds a mine, else the number of neighbouring mines.
    fn explore_tile(&mut self, pos: usize) -> (r: Option<u8>)
        requires
            old(self).can_explore(pos as int),
        ensures
            final(self).spec_graph() == old(self).spec_graph(),
            final(self).spec_num_mines() == old(self).spec_num_mines(),
            forall|p: int| old(self).can_explore(p) ==> #[trigger] final(self).can_explore(p),
            final(self).spec_answers() == old(self).spec_answers().push((pos as int, r)),
            old(self).spec_mines() matches Some(m) ==> {
                &&& final(self).spec_mines() == Some(m)
                &&& r == if m[pos as int] {
                    None::<u8>
                } else {
                    Some(mine_count(m, old(self).spec_graph().spec_neighbors(pos as int)) as u8)
                }
            },
    ;

    fn num_mines(&self) -> (r: usize)
        ensures
            r == self.spec_num_mines(),
    ;
}

/// Calls `rand::random_range(0..bound)`: a number drawn from `0..bound` by the thread's
/// generator (it panics on an empty range). Which number comes out is left open.
#[verifier::external_body]
pub(crate) fn random_below(bound: u64) -> (r: u64)
    requires
        bound > 0,
    ensures
        r < bound,
{
    rand::random_range(0..bound)
}

/// A number drawn at random from `0..bound`.
fn random_index(bound: usize) -> (r: usize)
    requires
        bound > 0,
    ensures
        r < bound,
{
    random_below(bound as u64) as usize
}

/// Draws `n` entries of `pool` at random, without drawing any entry twice.
fn pick_random(pool: Vec<usize>, n: usize) -> (r: Vec<usize>)
    requires
        n <= pool@.len(),
        pool@.no_duplicates(),
    ensures
        r@.len() == n,
        r@.no_duplicates(),
        forall|k: int| 0 <= k < r@.len() ==> pool@.contains(#[trigger] r@[k]),
{
    let mut pool = pool;
    let ghost start = pool@;
    let mut out: Vec<usize> = Vec::new();
    let mut i: usize = 0;
    while i < n
        invariant
            i <= n,
            out@.len() == i,
            pool@.len() + i == start.len(),
            n <= start.len(),
            pool@.no_duplicates(),
            out@.no_duplicates(),
            forall|k: int| 0 <= k < pool@.len() ==> start.contains(#[trigger] pool@[k]),
            forall|k: int| 0 <= k < out@.len() ==> start.contains(#[trigger] out@[k]),
            forall|k: int| 0 <= k < out@.len() ==> !pool@.contains(#[trigger] out@[k]),
        decreases n - i,
    {
        let idx = random_index(pool.len());
        let ghost before = pool@;
        let x = pool.swap_remove(idx);
        proof {
            assert(before.contains(x));
            assert forall|k: int| 0 <= k < pool@.len() implies #[trigger] before.contains(pool@[k]) && pool@[k] != x by {
                if k == idx {
                    assert(pool@[k] == before[before.len() - 1]);
                } else {
                    assert(pool@[k] == before[k]);
                }
            }
            assert(pool@.no_duplicates()) by {
                assert forall|a: int, b: int| 0 <= a < b < pool@.len() implies pool@[a] != pool@[b] by {
                    let ia = if a == idx { before.len() - 1 } else { a };
                    let ib = if b == idx { before.len() - 1 } else { b };
                    assert(pool@[a] == before[ia]);
                    assert(pool@[b] == before[ib]);
                }
            }
        }
        out.push(x);
        proof {
            assert forall|k: int| 0 <= k < out@.len() implies !pool@.contains(#[trigger] out@[k]) by {
                if k < out@.len() - 1 {
                    if pool@.contains(out@[k]) {
                        let m = choose|m: int| 0 <= m < pool@.len() && pool@[m] == out@[k];
                        assert(before.contains(pool@[m]));
                    }
                }
            }
            assert(out@.no_duplicates()) by {
                assert forall|a: int, b: int| 0 <= a < b < out@.len() implies out@[a] != out@[b] by {
                    if b == out@.len() - 1 {
                        assert(!before.contains(out@[a]) || out@[a] != x);
                    }
                }
            }
        }
        i = i + 1;
    }
    out
}

/// `n` distinct numbers drawn at random from `0..max`.
pub fn n_unique_random(max: usize, n: usize) -> (r: Vec<usize>)
    requires
        n <= max,
    ensures
        r@.len() == n,
        r@.no_duplicates(),
        forall|k: int| 0 <= k < r@.len() ==> #[trigger] r@[k] < max,
{
    let mut pool: Vec<usize> = Vec::new();
    let mut i: usize = 0;
    while i < max
        invariant
            i <= max,
            pool@ == Seq::new(i as nat, |k: int| k as usize),
        decreases max - i,
    {
        pool.push(i);
        i = i + 1;
        assert(pool@ =~= Seq::new(i as nat, |k: int| k as usize));
    }
    let ghost p = pool@;
    let r = pick_random(pool, n);
    proof {
        assert forall|k: int| 0 <= k < r@.len() implies #[trigger] r@[k] < max by {
            let m = choose|m: int| 0 <= m < p.len() && p[m] == r@[k];
        }
    }
    r
}

/// Which tiles the first uncovered tile guarantees to be free of mines.
#[derive(Clone, Copy, Debug, PartialEq, Eq, Structural)]
pub enum StartType {
    /// No guarantee.
    Unsafe,
    /// The first uncovered tile holds no mine.
    Safe,
    /// Neither the first uncovered tile nor its neighbours hold a mine.
    SafeNeighborhood,
}

/// A game whose mines are placed at random when the first tile is uncovered.
pub struct InternalGame<G: Graph> {
    pub grid: Option<BitSet>,
    pub start_type: StartType,
    pub num_mines: usize,
    pub graph: G,
    /// The tiles uncovered so far, each with the answer given.
    pub answers: Ghost<Seq<(int, Option<u8>)>>,
}

/// How many entries of `nbrs` point at a mine of `grid`.
pub open spec fn mine_count(grid: Seq<bool>, nbrs: Seq<usize>) -> nat
    decreases nbrs.len(),
{
    if nbrs.len() == 0 {
        0
    } else {
        mine_count(grid, nbrs.drop_last()) + if grid[nbrs.last() as int] {
            1nat
        } else {
            0nat
        }
    }
}

/// The tiles on which a mine may be placed when `pos` is uncovered first.
pub open spec fn allowed_tiles<G: Graph>(graph: G, start_type: StartType, pos: int) -> Seq<bool> {
    Seq::new(
        graph.spec_num_tiles(),
        |i: int|
            !(start_type != StartType::Unsafe && i == pos) && !(start_type == StartType::SafeNeighborhood
                && graph.spec_neighbors(pos).contains(i as usize)),
    )
}

impl<G: Graph> InternalGame<G> {
    /// The number of mines fits on the tiles allowed when `pos` is uncovered first.
    pub open spec fn can_generate(&self, pos: int) -> bool {
        &&& self.graph.graph_wf()
        &&& 0 <= pos < self.graph.spec_num_tiles()
        &&& len_fits(self.graph.spec_num_tiles())
        &&& self.num_mines <= true_count(allowed_tiles(self.graph, self.start_type, pos))
    }

    /// A game with no mines placed yet.
    pub fn new(num_mines: usize, start_type: StartType, graph: G) -> (r: Self)
        ensures
            r.grid is None,
            r.num_mines == num_mines,
            r.start_type == start_type,
            r.graph == graph,
    {
        InternalGame { grid: None, num_mines, start_type, graph, answers: Ghost(Seq::empty()) }
    }

    /// The tile's hint in a game with mines at `grid`: `None` for a mine, else the number of
    /// neighbouring mines.
    fn explore_tile_inner(&self, grid: &BitSet, pos: usize) -> (r: Option<u8>)
        requires
            self.graph.graph_wf(),
            grid.wf(),
            grid@.len() == self.graph.spec_num_tiles(),
            pos < grid@.len(),
            mine_count(grid@, self.graph.spec_neighbors(pos as int)) <= u8::MAX,
        ensures
            r == if grid@[pos as int] {
                None::<u8>
            } else {
                Some(mine_count(grid@, self.graph.spec_neighbors(pos as int)) as u8)
            },
    {
        proof {
            crate::bitset::lemma_storage_covers(grid);
        }
        if grid.get(pos) {
            return None;
        }
        let nbrs = self.graph.neighbors(pos);
        proof {
            self.graph.lemma_neighbors_in_range(pos as int);
        }
        let mut count: u8 = 0;
        let mut k: usize = 0;
        while k < nbrs.len()
            invariant
                grid.wf(),
                k <= nbrs@.len(),
                forall|m: int| 0 <= m < nbrs@.len() ==> #[trigger] nbrs@[m] < grid@.len(),
                grid@.len() <= 64 * crate::bitset::num_words(grid@.len()),
                count == mine_count(grid@, nbrs@.take(k as int)),
                mine_count(grid@, nbrs@) <= u8::MAX,
            decreases nbrs.len() - k,
        {
            proof {
                assert(nbrs@.take(k + 1).drop_last() == nbrs@.take(k as int));
                lemma_mine_count_prefix(grid@, nbrs@, k + 1);
            }
            if grid.get(nbrs[k]) {
                count = count + 1;
            }
            k = k + 1;
        }
        assert(nbrs@.take(nbrs@.len() as int) == nbrs@);
        Some(count)
    }

    /// Places the mines at random, avoiding the tiles that the start type protects.
    fn generate_grid(&self, pos: usize) -> (r: BitSet)
        requires
            self.can_generate(pos as int),
        ensures
            r.wf(),
            r@.len() == self.graph.spec_num_tiles(),
            true_count(r@) == self.num_mines,
            forall|i: int| 0 <= i < r@.len() && #[trigger] r@[i] ==> allowed_tiles(self.graph, self.start_type, pos as int)[i],
    {
        let n = self.graph.num_tiles();
        let mut allowed: Vec<bool> = Vec::new();
        let mut i: usize = 0;
        while i < n
            invariant
                i <= n,
                allowed@ == Seq::new(i as nat, |k: int| true),
            decreases n - i,
        {
            allowed.push(true);
            i = i + 1;
            assert(allowed@ =~= Seq::new(i as nat, |k: int| true));
        }
        if self.start_type != StartType::Unsafe {
            allowed.set(pos, false);
        }
        if self.start_type == StartType::SafeNeighborhood {
            let nbrs = self.graph.neighbors(pos);
            proof {
                self.graph.lemma_neighbors_in_range(pos as int);
            }
            let mut k: usize = 0;
            while k < nbrs.len()
                invariant
                    k <= nbrs@.len(),
                    allowed@.len() == n,
                    n == self.graph.spec_num_tiles(),
                    self.start_type == StartType::SafeNeighborhood,
                    nbrs@ == self.graph.spec_neighbors(pos as int),
                    forall|m: int| 0 <= m < nbrs@.len() ==> #[trigger] nbrs@[m] < n,
                    forall|j: int| 0 <= j < n ==> #[trigger] allowed@[j] == (j != pos && !nbrs@.take(k as int).contains(j as usize)),
                decreases nbrs.len() - k,
            {
                allowed.set(nbrs[k], false);
                proof {
                    assert forall|j: int| 0 <= j < n implies #[trigger] allowed@[j] == (j != pos && !nbrs@.take(k + 1).contains(j as usize)) by {
                        if nbrs@.take(k + 1).contains(j as usize) && j != nbrs@[k as int] {
                            let m = choose|m: int| 0 <= m < k + 1 && #[trigger] nbrs@.take(k + 1)[m] == j as usize;
                            assert(nbrs@.take(k as int)[m] == j as usize);
                        }
                        if nbrs@.take(k as int).contains(j as usize) {
                            let m = choose|m: int| 0 <= m < k && #[trigger] nbrs@.take(k as int)[m] == j as usize;
                            assert(nbrs@.take(k + 1)[m] == j as usize);
                        }
                        if j == nbrs@[k as int] {
                            assert(nbrs@.take(k + 1)[k as int] == j as usize);
                        }
                    }
                }
                k = k + 1;
            }
            assert(nbrs@.take(nbrs@.len() as int) == nbrs@);
        }
        assert(allowed@ =~= allowed_tiles(self.graph, self.start_type, pos as int));
        // the positions that may hold a mine
        let mut pool: Vec<usize> = Vec::new();
        let mut j: usize = 0;
        while j < n
            invariant
                j <= n,
                allowed@.len() == n,
                pool@ == crate::bits::ones_of(allowed@.take(j as int)),
            decreases n - j,
        {
            proof {
                assert(allowed@.take(j + 1).drop_last() == allowed@.take(j as int));
            }
            if allowed[j] {
                pool.push(j);
            }
            j = j + 1;
        }
        proof {
            assert(allowed@.take(n as int) == allowed@);
            crate::bits::lemma_ones_of(allowed@);
            assert(pool@.no_duplicates()) by {
                assert forall|a: int, b: int| 0 <= a < b < pool@.len() implies pool@[a] != pool@[b] by {}
            }
        }
        let mines = pick_random(pool, self.num_mines);
        proof {
            assert forall|k: int| 0 <= k < mines@.len() implies #[trigger] mines@[k] < n by {
                let m = choose|m: int| 0 <= m < pool@.len() && pool@[m] == mines@[k];
            }
        }
        let out = BitSet::from_iter(mines.as_slice(), n);
        proof {
            lemma_indicator_count(mines@, n as nat);
            assert(out@ =~= indicator(mines@, n as nat));
            assert forall|i: int| 0 <= i < out@.len() && #[trigger] out@[i] implies allowed@[i] by {
                let k = choose|k: int| 0 <= k < mines@.len() && mines@[k] == i as usize;
                assert(pool@.contains(mines@[k]));
                let m = choose|m: int| 0 <= m < pool@.len() && pool@[m] == mines@[k];
            }
        }
        out
    }
}

proof fn lemma_mine_count_prefix(grid: Seq<bool>, s: Seq<usize>, k: int)
    requires
        0 <= k <= s.len(),
    ensures
        mine_count(grid, s.take(k)) <= mine_count(grid, s),
    decreases s.len(),
{
    if k < s.len() {
        assert(s.take(k) == s.drop_last().take(k));
        lemma_mine_count_prefix(grid, s.drop_last(), k);
    } else {
        assert(s.take(k) == s);
    }
}

impl<G: Graph> InternalGame<G> {
    /// A game with no mines placed yet, of the same graph and number of mines as `game`.
    pub fn from_game<Ga: Game<Graph = G>>(start_type: StartType, game: &Ga) -> (r: Self)
        ensures
            r.grid is None,
            r.start_type == start_type,
            r.num_mines == game.spec_num_mines(),
            same_graph_as(r.graph, game.spec_graph()),
    {
        Self::new(game.num_mines(), start_type, game.graph().clone_graph())
    }

    /// The game with its mines at `grid`.
    pub fn from_grid(grid: BitSet, graph: G) -> (r: Self)
        requires
            grid.wf(),
        ensures
            r.grid == Some(grid),
            r.num_mines == true_count(grid@),
            r.start_type == StartType::Unsafe,
            r.graph == graph,
    {
        let num_mines = grid.count_ones();
        InternalGame { grid: Some(grid), num_mines, start_type: StartType::Unsafe, graph, answers: Ghost(Seq::empty()) }
    }
}

impl<G: Graph> Game for InternalGame<G> {
    type Graph = G;

    open spec fn spec_graph(&self) -> G {
        self.graph
    }

    open spec fn spec_num_mines(&self) -> nat {
        self.num_mines as nat
    }

    open spec fn spec_mines(&self) -> Option<Seq<bool>> {
        match self.grid {
            Some(g) => Some(g@),
            None => None,
        }
    }

    open spec fn spec_answers(&self) -> Seq<(int, Option<u8>)> {
        self.answers@
    }

    open spec fn can_explore(&self, pos: int) -> bool {
        &&& self.graph.graph_wf()
        &&& 0 <= pos < self.graph.spec_num_tiles()
        &&& match self.grid {
            None => self.can_generate(pos) && self.graph.spec_neighbors(pos).len() <= u8::MAX,
            Some(g) => g.wf() && g@.len() == self.graph.spec_num_tiles() && mine_count(
                g@,
                self.graph.spec_neighbors(pos),
            ) <= u8::MAX,
        }
    }

    fn graph(&self) -> (r: &G) {
        &self.graph
    }

    /// Places the mines on the first call, then answers from them.
    fn explore_tile(&mut self, pos: usize) -> (r: Option<u8>)
        ensures
            final(self).grid matches Some(g) && g.wf() && g@.len() == old(self).graph.spec_num_tiles()
                && r == if g@[pos as int] {
                None::<u8>
            } else {
                Some(mine_count(g@, old(self).graph.spec_neighbors(pos as int)) as u8)
            },
            old(self).grid is Some ==> final(self).grid == old(self).grid,
            old(self).grid is None ==> (final(self).grid matches Some(g) && true_count(g@) == old(self).num_mines
                && forall|i: int| 0 <= i < g@.len() && #[trigger] g@[i] ==> allowed_tiles(
                old(self).graph,
                old(self).start_type,
                pos as int,
            )[i]),
            old(self).grid is None && old(self).start_type != StartType::Unsafe ==> r is Some,
            final(self).num_mines == old(self).num_mines,
            final(self).start_type == old(self).start_type,
            final(self).graph == old(self).graph,
    {
        if self.grid.is_none() {
            let g = self.generate_grid(pos);
            proof {
                crate::bitset::lemma_storage_covers(&g);
                lemma_mine_count_le(g@, self.graph.spec_neighbors(pos as int));
                assert forall|p: int| old(self).can_explore(p) implies mine_count(g@, self.graph.spec_neighbors(p)) <= u8::MAX by {
                    lemma_mine_count_le(g@, self.graph.spec_neighbors(p));
                }
            }
            self.grid = Some(g);
        }
        let r = match &self.grid {
            Some(g) => self.explore_tile_inner(g, pos),
            None => None,
        };
        self.answers = Ghost(self.answers@.push((pos as int, r)));
        r
    }

    fn num_mines(&self) -> (r: usize) {
        self.num_mines
    }
}

pub(crate) proof fn lemma_mine_count_le(grid: Seq<bool>, s: Seq<usize>)
    ensures
        mine_count(grid, s) <= s.len(),
    decreases s.len(),
{
    if s.len() > 0 {
        lemma_mine_count_le(grid, s.drop_last());
    }
}

} // verus!
