use vstd::prelude::*;
use crate::inline_vec::{
    NeighborList, neighbor_list_of, neighbor_list_from_slice, neighbor_list_to_vec, neighbor_list_clone,
};

verus! {

/// A graph of tiles numbered `0..num_tiles`, each with a list of neighbouring tiles.
pub trait Graph: Sized {
    /// The number of tiles.
    spec fn spec_num_tiles(&self) -> nat;

    /// The neighbours of tile `pos`, in the order in which they are visited.
    spec fn spec_neighbors(&self, pos: int) -> Seq<usize>;

    /// The graph's size and neighbour lists can be computed without overflow,
    /// and every neighbour is a tile of the graph.
    spec fn graph_wf(&self) -> bool;

    proof fn lemma_neighbors_in_range(&self, pos: int)
        requires
            self.graph_wf(),
            0 <= pos < self.spec_num_tiles(),
        ensures
            forall|i: int|
                0 <= i < self.spec_neighbors(pos).len() ==> #[trigger] self.spec_neighbors(pos)[i]
                    < self.spec_num_tiles(),
    ;

    fn num_tiles(&self) -> (n: usize)
        requires
            self.graph_wf(),
        ensures
            n == self.spec_num_tiles(),
    ;

    fn neighbors(&self, pos: usize) -> (r: Vec<usize>)
        requires
            self.graph_wf(),
            pos < self.spec_num_tiles(),
        ensures
            r@ == self.spec_neighbors(pos as int),
    ;

    /// A copy of the graph: the same tiles and neighbour lists.
    fn clone_graph(&self) -> (r: Self)
        ensures
            r.spec_num_tiles() == self.spec_num_tiles(),
            forall|p: int| #[trigger] r.spec_neighbors(p) == self.spec_neighbors(p),
            r.graph_wf() == self.graph_wf(),
    ;
}

/// Both graphs have the same tiles and neighbour lists, and one is usable exactly when the
/// other is.
pub open spec fn same_graph_as<G: Graph>(a: G, b: G) -> bool {
    &&& a.spec_num_tiles() == b.spec_num_tiles()
    &&& forall|p: int| #[trigger] a.spec_neighbors(p) == b.spec_neighbors(p)
    &&& a.graph_wf() == b.graph_wf()
}

pub const MOORE_NEIGHBORHOOD: [(isize, isize); 8] = [
    (-1, -1),
    (0, -1),
    (1, -1),
    (-1, 0),
    (1, 0),
    (-1, 1),
    (0, 1),
    (1, 1),
];

pub const VON_NEUMANN_NEIGHBORHOOD: [(isize, isize); 4] = [(0, -1), (-1, 0), (1, 0), (0, 1)];

pub const KNIGHT_NEIGHBORHOOD: [(isize, isize); 8] = [
    (-1, -2),
    (1, -2),
    (-2, -1),
    (2, -1),
    (-2, 1),
    (2, 1),
    (-1, 2),
    (1, 2),
];

/// A rectangular grid of `width * height` tiles, numbered row by row, where the
/// neighbours of a tile are the tiles at the given offsets that lie inside the grid.
#[derive(Debug, PartialEq, Eq, Hash)]
pub struct Graph2d {
    pub width: usize,
    pub height: usize,
    pub neighbors: Vec<(isize, isize)>,
}

/// The tile that offset `off` leads to from tile `pos` of a `width * height` grid, if it is inside.
pub open spec fn offset_target(width: int, height: int, pos: int, off: (isize, isize)) -> Option<usize> {
    let x2 = pos % width + off.0;
    let y2 = pos / width + off.1;
    if 0 <= x2 < width && 0 <= y2 < height {
        Some((x2 + y2 * width) as usize)
    } else {
        None
    }
}

/// The targets of the offsets `offs`, in order, skipping those outside the grid.
pub open spec fn offset_targets(width: int, height: int, pos: int, offs: Seq<(isize, isize)>) -> Seq<usize>
    decreases offs.len(),
{
    if offs.len() == 0 {
        Seq::empty()
    } else {
        let rest = offset_targets(width, height, pos, offs.drop_last());
        match offset_target(width, height, pos, offs.last()) {
            Some(t) => rest.push(t),
            None => rest,
        }
    }
}

proof fn lemma_offset_targets_in_range(width: int, height: int, pos: int, offs: Seq<(isize, isize)>)
    requires
        width > 0,
        height > 0,
        width * height <= usize::MAX,
    ensures
        forall|i: int|
            0 <= i < offset_targets(width, height, pos, offs).len() ==> #[trigger] offset_targets(
                width,
                height,
                pos,
                offs,
            )[i] < width * height,
    decreases offs.len(),
{
    if offs.len() > 0 {
        lemma_offset_targets_in_range(width, height, pos, offs.drop_last());
        let x2 = pos % width + offs.last().0;
        let y2 = pos / width + offs.last().1;
        if 0 <= x2 < width && 0 <= y2 < height {
            assert(x2 + y2 * width < width * height) by (nonlinear_arith)
                requires
                    0 <= x2 < width,
                    0 <= y2 < height,
            ;
            assert(0 <= x2 + y2 * width) by (nonlinear_arith)
                requires
                    0 <= x2 < width,
                    0 <= y2 < height,
            ;
        }
        let rest = offset_targets(width, height, pos, offs.drop_last());
        let all = offset_targets(width, height, pos, offs);
        assert forall|i: int| 0 <= i < all.len() implies #[trigger] all[i] < width * height by {
            if i < rest.len() {
                assert(all[i] == rest[i]);
            }
        }
    }
}

impl Graph2d {
    pub fn new(width: usize, height: usize, neighbors: &[(isize, isize)]) -> (r: Self)
        ensures
            r.width == width,
            r.height == height,
            r.neighbors@ == neighbors@,
    {
        let mut v: Vec<(isize, isize)> = Vec::new();
        let mut i: usize = 0;
        while i < neighbors.len()
            invariant
                i <= neighbors.len(),
                v@ == neighbors@.subrange(0, i as int),
            decreases neighbors.len() - i,
        {
            v.push(neighbors[i]);
            i = i + 1;
            assert(v@ == neighbors@.subrange(0, i as int));
        }
        Graph2d { width, height, neighbors: v }
    }

    /// Whether the grid's size and every offset from every tile can be computed without
    /// overflow (what `graph_wf` asks).
    pub fn is_wf(&self) -> (r: bool)
        ensures
            r == self.graph_wf(),
    {
        if self.width.checked_mul(self.height).is_none() {
            return false;
        }
        if self.width > isize::MAX as usize || self.height > isize::MAX as usize {
            return false;
        }
        let mut i: usize = 0;
        while i < self.neighbors.len()
            invariant
                i <= self.neighbors@.len(),
                forall|j: int|
                    0 <= j < i ==> self.width - 1 + (#[trigger] self.neighbors@[j]).0 <= isize::MAX && self.height - 1
                        + self.neighbors@[j].1 <= isize::MAX,
            decreases self.neighbors.len() - i,
        {
            let (dx, dy) = self.neighbors[i];
            if (self.width as i128) - 1 + (dx as i128) > isize::MAX as i128 || (self.height as i128) - 1 + (dy as i128)
                > isize::MAX as i128 {
                return false;
            }
            i = i + 1;
        }
        true
    }
}

impl Clone for Graph2d {
    fn clone(&self) -> (r: Self)
        ensures
            r.width == self.width,
            r.height == self.height,
            r.neighbors@ == self.neighbors@,
    {
        let mut v: Vec<(isize, isize)> = Vec::new();
        let mut i: usize = 0;
        while i < self.neighbors.len()
            invariant
                i <= self.neighbors.len(),
                v@ == self.neighbors@.subrange(0, i as int),
            decreases self.neighbors.len() - i,
        {
            v.push(self.neighbors[i]);
            i = i + 1;
            assert(v@ == self.neighbors@.subrange(0, i as int));
        }
        Graph2d { width: self.width, height: self.height, neighbors: v }
    }
}

impl Graph for Graph2d {
    open spec fn spec_num_tiles(&self) -> nat {
        (self.width * self.height) as nat
    }

    open spec fn spec_neighbors(&self, pos: int) -> Seq<usize> {
        offset_targets(self.width as int, self.height as int, pos, self.neighbors@)
    }

    open spec fn graph_wf(&self) -> bool {
        &&& self.width * self.height <= usize::MAX
        &&& self.width <= isize::MAX
        &&& self.height <= isize::MAX
        &&& forall|i: int|
            0 <= i < self.neighbors@.len() ==> self.width - 1 + (#[trigger] self.neighbors@[i]).0
                <= isize::MAX && self.height - 1 + self.neighbors@[i].1 <= isize::MAX
    }

    proof fn lemma_neighbors_in_range(&self, pos: int) {
        if self.width == 0 || self.height == 0 {
            assert(self.width * self.height == 0) by (nonlinear_arith)
                requires
                    self.width == 0 || self.height == 0,
            ;
        } else {
            lemma_offset_targets_in_range(self.width as int, self.height as int, pos, self.neighbors@);
        }
    }

    fn num_tiles(&self) -> (n: usize) {
        self.width * self.height
    }

    fn clone_graph(&self) -> (r: Self) {
        let r = self.clone();
        assert(r.neighbors@ == self.neighbors@);
        r
    }

    fn neighbors(&self, pos: usize) -> (r: Vec<usize>) {
        let w = self.width;
        let h = self.height;
        proof {
            if w == 0 || h == 0 {
                assert(w * h == 0) by (nonlinear_arith)
                    requires
                        w == 0 || h == 0,
                ;
            }
        }
        let x = pos % w;
        let y = pos / w;
        proof {
            assert(y < h) by (nonlinear_arith)
                requires
                    pos < w * h,
                    y == pos / w,
                    w > 0,
            ;
        }
        let mut out: Vec<usize> = Vec::new();
        let mut i: usize = 0;
        while i < self.neighbors.len()
            invariant
                self.graph_wf(),
                w == self.width,
                h == self.height,
                w > 0,
                x == pos % w,
                y == pos / w,
                x < w,
                y < h,
                i <= self.neighbors.len(),
                out@ == offset_targets(w as int, h as int, pos as int, self.neighbors@.subrange(0, i as int)),
            decreases self.neighbors.len() - i,
        {
            let (xi, yi) = self.neighbors[i];
            let x2: isize = x as isize + xi;
            let y2: isize = y as isize + yi;
            if x2 >= 0 && (x2 as usize) < w && y2 >= 0 && (y2 as usize) < h {
                let xx: usize = x2 as usize;
                let yy: usize = y2 as usize;
                proof {
                    assert(xx + yy * w < w * h) by (nonlinear_arith)
                        requires
                            xx < w,
                            yy < h,
                    ;
                    assert(yy * w <= xx + yy * w);
                }
                out.push(xx + yy * w);
            }
            proof {
                let s = self.neighbors@.subrange(0, i + 1);
                assert(s.drop_last() == self.neighbors@.subrange(0, i as int));
                assert(s.last() == (xi, yi));
            }
            i = i + 1;
        }
        assert(self.neighbors@.subrange(0, self.neighbors@.len() as int) == self.neighbors@);
        out
    }
}

/// A graph whose neighbour lists are stored explicitly.
pub struct PrecomputedGraph {
    pub neighbors: Vec<NeighborList>,
}

impl PrecomputedGraph {
    /// Stores the neighbour list of every tile of `graph`.
    pub fn from_graph<G: Graph>(graph: &G) -> (r: Self)
        requires
            graph.graph_wf(),
        ensures
            r.neighbors@.len() == graph.spec_num_tiles(),
            forall|i: int|
                0 <= i < r.neighbors@.len() ==> neighbor_list_of(#[trigger] r.neighbors@[i])
                    == graph.spec_neighbors(i),
            forall|i: int| 0 <= i < r.neighbors@.len() ==> #[trigger] r.spec_neighbors(i) == graph.spec_neighbors(i),
    {
        let n = graph.num_tiles();
        let mut lists: Vec<NeighborList> = Vec::new();
        let mut i: usize = 0;
        while i < n
            invariant
                graph.graph_wf(),
                n == graph.spec_num_tiles(),
                i <= n,
                lists@.len() == i,
                forall|j: int|
                    0 <= j < i ==> neighbor_list_of(#[trigger] lists@[j]) == graph.spec_neighbors(j),
            decreases n - i,
        {
            let nb = graph.neighbors(i);
            lists.push(neighbor_list_from_slice(nb.as_slice()));
            i = i + 1;
        }
        PrecomputedGraph { neighbors: lists }
    }

    /// Stores the given neighbour lists; list `i` holds the neighbours of tile `i`.
    pub fn from_adjacency_list(list: &[Vec<usize>]) -> (r: Self)
        ensures
            r.neighbors@.len() == list@.len(),
            forall|i: int|
                0 <= i < list@.len() ==> neighbor_list_of(#[trigger] r.neighbors@[i]) == list@[i]@,
    {
        let mut lists: Vec<NeighborList> = Vec::new();
        let mut i: usize = 0;
        while i < list.len()
            invariant
                i <= list@.len(),
                lists@.len() == i,
                forall|j: int| 0 <= j < i ==> neighbor_list_of(#[trigger] lists@[j]) == list@[j]@,
            decreases list@.len() - i,
        {
            lists.push(neighbor_list_from_slice(list[i].as_slice()));
            i = i + 1;
        }
        PrecomputedGraph { neighbors: lists }
    }
}

impl Graph for PrecomputedGraph {
    open spec fn spec_num_tiles(&self) -> nat {
        self.neighbors@.len()
    }

    open spec fn spec_neighbors(&self, pos: int) -> Seq<usize> {
        if 0 <= pos < self.neighbors@.len() {
            neighbor_list_of(self.neighbors@[pos])
        } else {
            Seq::empty()
        }
    }

    open spec fn graph_wf(&self) -> bool {
        forall|p: int, i: int|
            0 <= p < self.neighbors@.len() && 0 <= i < neighbor_list_of(self.neighbors@[p]).len()
                ==> #[trigger] neighbor_list_of(self.neighbors@[p])[i] < self.neighbors@.len()
    }

    proof fn lemma_neighbors_in_range(&self, pos: int) {
    }

    fn num_tiles(&self) -> (n: usize) {
        self.neighbors.len()
    }

    fn neighbors(&self, pos: usize) -> (r: Vec<usize>) {
        neighbor_list_to_vec(&self.neighbors[pos])
    }

    fn clone_graph(&self) -> (r: Self) {
        let mut lists: Vec<NeighborList> = Vec::new();
        let mut i: usize = 0;
        while i < self.neighbors.len()
            invariant
                i <= self.neighbors@.len(),
                lists@.len() == i,
                forall|j: int| 0 <= j < i ==> neighbor_list_of(#[trigger] lists@[j]) == neighbor_list_of(self.neighbors@[j]),
            decreases self.neighbors.len() - i,
        {
            lists.push(neighbor_list_clone(&self.neighbors[i]));
            i = i + 1;
        }
        let r = PrecomputedGraph { neighbors: lists };
        assert(forall|p: int| #[trigger] r.spec_neighbors(p) == self.spec_neighbors(p));
        assert(r.graph_wf() == self.graph_wf()) by {
            if self.graph_wf() {
                assert forall|p: int, i: int|
                    0 <= p < r.neighbors@.len() && 0 <= i < neighbor_list_of(r.neighbors@[p]).len()
                        implies #[trigger] neighbor_list_of(r.neighbors@[p])[i] < r.neighbors@.len() by {
                    assert(neighbor_list_of(r.neighbors@[p]) == neighbor_list_of(self.neighbors@[p]));
                }
            }
            if r.graph_wf() {
                assert forall|p: int, i: int|
                    0 <= p < self.neighbors@.len() && 0 <= i < neighbor_list_of(self.neighbors@[p]).len()
                        implies #[trigger] neighbor_list_of(self.neighbors@[p])[i] < self.neighbors@.len() by {
                    assert(neighbor_list_of(r.neighbors@[p]) == neighbor_list_of(self.neighbors@[p]));
                }
            }
        }
        r
    }
}

} // verus!
