use minesolver::bits::LocIter;
use minesolver::bitset::BitSet;
use minesolver::board::{is_grid_subset_of, Board, Tile};
use minesolver::combinations::combinations;
use minesolver::counting::{n_choose_k, n_choose_k_natural, n_choose_k_u64, BigNat};
use minesolver::game::{n_unique_random, Game, InternalGame, StartType};
use minesolver::graph::{Graph, Graph2d, PrecomputedGraph, MOORE_NEIGHBORHOOD, VON_NEUMANN_NEIGHBORHOOD};
use minesolver::sampling::{
    pick_weighted, pick_weighted_natural, random_combination, select_weighted_random,
    select_weighted_random_natural,
};
use minesolver::search::{search_fn, search_with_solutions, Tree};
use minesolver::solver::Solver;

fn grid3() -> Graph2d {
    Graph2d::new(3, 3, &MOORE_NEIGHBORHOOD)
}

fn set_of(len: usize, items: &[usize]) -> BitSet {
    BitSet::from_iter(items, len)
}

fn big(x: u64) -> BigNat {
    BigNat::from_u64(x)
}

fn value(b: &BigNat) -> u128 {
    let limbs = b.limbs();
    let mut v: u128 = 0;
    for (i, l) in limbs.iter().enumerate() {
        assert!(i < 2);
        v += (*l as u128) << (64 * i);
    }
    v
}

// ---------------------------------------------------------------------------------------------
// Tiles

#[test]
fn tile_fill_checks() {
    let flag = Tile::Hint { hint: 2, remaining_mines: 2, empties: 2 };
    assert!(flag.needs_flag_fill());
    assert!(!flag.needs_hint_fill());
    assert!(flag.needs_propogate());
    let fill = Tile::Hint { hint: 2, remaining_mines: 0, empties: 3 };
    assert!(fill.needs_hint_fill());
    assert!(!fill.needs_flag_fill());
    assert!(fill.needs_propogate());
    let done = Tile::Hint { hint: 2, remaining_mines: 0, empties: 0 };
    assert!(!done.needs_propogate());
    assert!(Tile::Mine { needs_propogate: true }.needs_propogate());
    assert!(!Tile::AssertHint { needs_propogate: false }.needs_propogate());
    assert!(!Tile::Empty.needs_propogate());
}

#[test]
fn tile_subsets() {
    let hint = Tile::Hint { hint: 1, remaining_mines: 0, empties: 0 };
    let other_hint = Tile::Hint { hint: 2, remaining_mines: 0, empties: 0 };
    let mine = Tile::Mine { needs_propogate: false };
    let asserted = Tile::AssertHint { needs_propogate: false };
    assert!(hint.subset_of(&Tile::Empty));
    assert!(mine.subset_of(&Tile::Empty));
    assert!(hint.subset_of(&asserted));
    assert!(!mine.subset_of(&asserted));
    assert!(!other_hint.subset_of(&hint));
    assert!(mine.subset_of(&mine));
    assert!(!Tile::Empty.subset_of(&mine));
    assert!(is_grid_subset_of(&[hint, mine], &[Tile::Empty, mine]));
    assert!(!is_grid_subset_of(&[Tile::Empty, mine], &[hint, mine]));
}

// ---------------------------------------------------------------------------------------------
// Graphs

#[test]
fn grid_neighbours() {
    let g = grid3();
    assert_eq!(g.num_tiles(), 9);
    assert_eq!(g.neighbors(0), vec![1, 3, 4]);
    assert_eq!(g.neighbors(4), vec![0, 1, 2, 3, 5, 6, 7, 8]);
    let cross = Graph2d::new(3, 3, &VON_NEUMANN_NEIGHBORHOOD);
    assert_eq!(cross.neighbors(4), vec![1, 3, 5, 7]);
    assert_eq!(cross.neighbors(8), vec![5, 7]);
}

#[test]
fn precomputed_graph_copies_neighbours() {
    let g = grid3();
    let p = PrecomputedGraph::from_graph(&g);
    assert_eq!(p.num_tiles(), 9);
    for t in 0..9 {
        assert_eq!(p.neighbors(t), g.neighbors(t));
    }
    let q = PrecomputedGraph::from_adjacency_list(&[vec![1], vec![0, 2], vec![1]]);
    assert_eq!(q.num_tiles(), 3);
    assert_eq!(q.neighbors(1), vec![0, 2]);
}

// ---------------------------------------------------------------------------------------------
// Sets of tiles

#[test]
fn bitset_basics() {
    let mut s = BitSet::zeros(70);
    assert_eq!(s.len(), 70);
    assert!(!s.any());
    s.set_to_one(3);
    s.set_to_one(65);
    assert!(s.get(3) && s.get(65) && !s.get(4));
    assert_eq!(s.count_ones(), 2);
    assert_eq!(s.iter_ones(), vec![3, 65]);
    s.set_to_zero(3);
    assert_eq!(s.iter_ones(), vec![65]);
    s.set_to(10, true);
    assert_eq!(s.into_iter_ones(), vec![10, 65]);
}

#[test]
fn bitset_operations() {
    let a = set_of(10, &[1, 2, 3]);
    let b = set_of(10, &[3, 4]);
    assert_eq!(a.bitand(&b).iter_ones(), vec![3]);
    assert_eq!(a.bitor(&b).iter_ones(), vec![1, 2, 3, 4]);
    assert_eq!(a.bitxor(&b).iter_ones(), vec![1, 2, 4]);
    assert_eq!(a.add(&b).iter_ones(), vec![1, 2, 3, 4]);
    assert_eq!(a.sub(&b).iter_ones(), vec![1, 2]);
    assert_eq!(a.count_overlap_ones(&b), 1);
    assert!(a.overlaps_with(&b));
    assert!(!set_of(10, &[0]).overlaps_with(&b));
    assert!(set_of(10, &[1, 3]).is_subset_of(&a));
    assert!(!b.is_subset_of(&a));
    assert!(a.equal_on_mask(&set_of(10, &[1, 2, 3, 9]), &set_of(10, &[0, 1, 2, 3])));
    assert!(!a.equal_on_mask(&b, &set_of(10, &[1])));
    let mut c = a.clone();
    c.add_assign(&b);
    c.sub_assign(&set_of(10, &[1]));
    assert_eq!(c.iter_ones(), vec![2, 3, 4]);
    c.bitand_assign(&a);
    assert_eq!(c.iter_ones(), vec![2, 3]);
    c.bitor_assign(&b);
    assert_eq!(c.iter_ones(), vec![2, 3, 4]);
    c.bitxor_assign(&b);
    assert_eq!(c.iter_ones(), vec![2]);
    c.extend(&[7, 8]);
    assert_eq!(c.iter_ones(), vec![2, 7, 8]);
    assert_eq!(c.first_n_ones(2).iter_ones(), vec![2, 7]);
    assert_eq!(c.first_n_ones(5).iter_ones(), vec![2, 7, 8]);
    c.clear();
    assert!(!c.any());
}

#[test]
fn bitset_full_sets() {
    let all = BitSet::ones(10);
    assert_eq!(all.count_ones(), 10);
    assert!(all.all());
    let mut s = set_of(128, &[0, 127]);
    s.invert();
    assert_eq!(s.count_ones(), 126);
    assert!(!s.get(0) && s.get(1) && !s.get(127));
    let t = set_of(128, &[5]).inverted();
    assert_eq!(t.count_ones(), 127);
    assert!(!BitSet::zeros(10).all());
}

#[test]
fn popcount_blocks() {
    let r = minesolver::bitset::count_vec_ones([0, 1, 3, u64::MAX, 0x10, 0, 7, 0x8000_0000_0000_0000]);
    assert_eq!(r, [0, 1, 2, 64, 1, 0, 3, 1]);
}

// ---------------------------------------------------------------------------------------------
// Counting

#[test]
fn binomials() {
    assert_eq!(n_choose_k(5, 2), 10);
    assert_eq!(n_choose_k(5, 0), 1);
    assert_eq!(n_choose_k(6, 6), 1);
    assert_eq!(n_choose_k_u64(20, 10), 184756);
    assert_eq!(n_choose_k_u64(4, 1), 4);
    assert_eq!(value(&n_choose_k_natural(100, 50)), 100891344545564193334812497256);
    assert_eq!(value(&n_choose_k_natural(7, 3)), 35);
}

#[test]
fn big_numbers() {
    let a = big(u64::MAX);
    let b = big(5);
    assert_eq!(value(&a.add(&b)), u64::MAX as u128 + 5);
    assert_eq!(value(&a.sub(&b)), (u64::MAX - 5) as u128);
    assert_eq!(value(&a.mul(&b)), u64::MAX as u128 * 5);
    assert_eq!(value(&a.div(&b)), (u64::MAX / 5) as u128);
    assert!(b.le(&a));
    assert!(!a.le(&b));
    assert!(b.le(&big(5)));
    assert_eq!(value(&BigNat::factorial(10)), 3628800);
    assert_eq!(value(&BigNat::zero()), 0);
    assert_eq!(value(&BigNat::from_limbs(vec![1, 2]).clone()), (2u128 << 64) + 1);
}

#[test]
fn combinations_of_groups() {
    // Two groups: {0, 1} and {2}.
    let groups = vec![set_of(4, &[0, 1]), set_of(4, &[2])];
    let group_set = set_of(4, &[0, 1]);
    let one = combinations(&groups, &group_set, 1);
    let mut seen: Vec<Vec<usize>> = one.iter().map(|c| c.iter_ones()).collect();
    seen.sort();
    assert_eq!(seen, vec![vec![0], vec![2]]);
    let two = combinations(&groups, &group_set, 2);
    let mut seen: Vec<Vec<usize>> = two.iter().map(|c| c.iter_ones()).collect();
    seen.sort();
    assert_eq!(seen, vec![vec![0, 1], vec![0, 2]]);
    assert_eq!(combinations(&groups, &group_set, 3).len(), 1);
    assert_eq!(combinations(&groups, &group_set, 4).len(), 0);
}

// ---------------------------------------------------------------------------------------------
// Boards

#[test]
fn board_operations_keep_counters() {
    let mut board = Board::new(grid3(), 2);
    assert_eq!(board.set_tile(0, 1), Some(()));
    assert_eq!(board.grid[0], Tile::Hint { hint: 1, remaining_mines: 1, empties: 3 });
    board.flag_tile(1);
    assert_eq!(board.grid[1], Tile::Mine { needs_propogate: true });
    assert_eq!(board.grid[0], Tile::Hint { hint: 1, remaining_mines: 0, empties: 2 });
    assert_eq!(board.remaining_mines(), 1);
    board.clear_tile(1);
    assert_eq!(board.grid[1], Tile::Empty);
    assert_eq!(board.grid[0], Tile::Hint { hint: 1, remaining_mines: 1, empties: 3 });
    board.assert_tile(4);
    assert_eq!(board.grid[4], Tile::AssertHint { needs_propogate: true });
    assert_eq!(board.grid[0], Tile::Hint { hint: 1, remaining_mines: 1, empties: 2 });
    assert_eq!(board.remaining_empty_tiles(), 7);
    assert!(!board.is_solved());
}

#[test]
fn board_rejects_impossible_hint() {
    let mut board = Board::new(grid3(), 2);
    board.flag_tile(1);
    board.flag_tile(3);
    // Two flagged neighbours cannot go with a hint of 1.
    assert_eq!(board.set_tile(0, 1), None);
    assert_eq!(board.grid[0], Tile::Empty);
    // Three neighbours, two flagged and one undecided, cannot hold four mines.
    assert_eq!(board.set_tile(0, 4), None);
    assert_eq!(board.set_tile(0, 3), Some(()));
    assert_eq!(board.grid[0], Tile::Hint { hint: 3, remaining_mines: 1, empties: 1 });
}

#[test]
fn board_normalize_and_subsets() {
    let mut board = Board::new(grid3(), 2);
    board.set_tile(0, 1).unwrap();
    board.flag_tile(1);
    let normal = board.normalize();
    assert_eq!(normal.num_mines, 1);
    assert_eq!(normal.grid[1], Tile::AssertHint { needs_propogate: true });
    assert_eq!(normal.grid[0], Tile::AssertHint { needs_propogate: false });
    let fresh = Board::new(grid3(), 2);
    assert!(board.subset_of(&fresh));
    assert!(!fresh.subset_of(&board));
    let copy = board.copy();
    assert_eq!(copy.grid, board.grid);
    assert_eq!(copy.num_mines, board.num_mines);
    assert_eq!(board.known_mines().iter_ones(), vec![1]);
    assert_eq!(board.all_empties().count_ones(), 7);
}

#[test]
fn board_solved_when_mines_fill_the_rest() {
    let mut board = Board::new(Graph2d::new(2, 1, &MOORE_NEIGHBORHOOD), 1);
    board.set_tile(0, 1).unwrap();
    assert!(board.is_solved());
}

// ---------------------------------------------------------------------------------------------
// Placements of the mines

fn one_hint_board() -> Board<Graph2d> {
    // Tile 0 shows 1; two mines in all.
    let mut board = Board::new(grid3(), 2);
    board.set_tile(0, 1).unwrap();
    board
}

#[test]
fn solution_counts_of_one_hint() {
    let board = one_hint_board();
    let set = board.solutionset();
    assert!(set.check_counts());
    assert_eq!(set.num_tiles(), 9);
    assert_eq!(set.remaining_mines(), 2);
    // One mine among the three neighbours of tile 0, one among the five other tiles.
    assert_eq!(value(&set.total_solutions()), 15);
    let counts = set.solution_counts();
    assert_eq!(counts.len(), 1);
    assert_eq!(value(&counts[0].0), 15);
    assert_eq!(counts[0].1, vec![(1, 3)]);
    let safe: Vec<u128> = set.tile_safe_solutions().iter().map(value).collect();
    assert_eq!(safe, vec![0, 10, 12, 10, 10, 12, 12, 12, 12]);
    let (safe_tiles, mine_tiles) = set.solved();
    assert!(!safe_tiles.any());
    assert!(!mine_tiles.any());
}

#[test]
fn solved_tiles_of_a_corner() {
    // Tile 0 shows 0: its three neighbours are safe.
    let mut board = Board::new(grid3(), 1);
    board.set_tile(0, 0).unwrap();
    let set = board.solutionset();
    let (safe_tiles, mine_tiles) = set.solved();
    assert_eq!(safe_tiles.iter_ones(), vec![1, 3, 4]);
    assert!(!mine_tiles.any());
}

#[test]
fn solved_mines_of_a_full_hint() {
    // Tile 0 shows 3: its three neighbours hold mines, and with three mines in all the rest
    // is safe.
    let mut board = Board::new(grid3(), 3);
    board.set_tile(0, 3).unwrap();
    let set = board.solutionset();
    let (safe_tiles, mine_tiles) = set.solved();
    assert_eq!(mine_tiles.iter_ones(), vec![1, 3, 4]);
    assert_eq!(safe_tiles.iter_ones(), vec![2, 5, 6, 7, 8]);
    assert_eq!(value(&set.total_solutions()), 1);
}

// ---------------------------------------------------------------------------------------------
// Randomness

#[test]
fn weighted_picks() {
    let counts = vec![2u64, 0, 3];
    assert_eq!(pick_weighted(&counts, 0), Some(0));
    assert_eq!(pick_weighted(&counts, 1), Some(0));
    assert_eq!(pick_weighted(&counts, 2), Some(2));
    assert_eq!(pick_weighted(&counts, 4), Some(2));
    assert_eq!(pick_weighted(&counts, 5), None);
    let weights = vec![big(0), big(4), big(1)];
    assert_eq!(pick_weighted_natural(&weights, &big(0)), 1);
    assert_eq!(pick_weighted_natural(&weights, &big(3)), 1);
    assert_eq!(pick_weighted_natural(&weights, &big(4)), 2);
}

#[test]
fn random_picks_land_on_positive_weights() {
    for _ in 0..20 {
        assert_eq!(select_weighted_random(&vec![0, 5, 0]), Some(1));
        assert_eq!(select_weighted_random_natural(&vec![big(0), big(0), big(9)]), 2);
        let i = select_weighted_random(&vec![1, 0, 1]).unwrap();
        assert!(i == 0 || i == 2);
        let j = select_weighted_random_natural(&vec![big(3), big(0), big(u64::MAX)]);
        assert!(j == 0 || j == 2);
    }
}

#[test]
fn random_subsets() {
    let mask = set_of(10, &[0, 2, 4, 6]);
    for n in 0..6 {
        let c = random_combination(&mask, n);
        assert_eq!(c.len(), 10);
        assert_eq!(c.count_ones(), n.min(4));
        assert!(c.is_subset_of(&mask));
    }
    let picks = n_unique_random(10, 4);
    assert_eq!(picks.len(), 4);
    for (i, a) in picks.iter().enumerate() {
        assert!(*a < 10);
        for b in &picks[i + 1..] {
            assert_ne!(a, b);
        }
    }
}

#[test]
fn sampled_arrangements_follow_the_hint() {
    let board = one_hint_board();
    let set = board.solutionset();
    for _ in 0..20 {
        let a = set.sample_arrangement();
        assert_eq!(a.count_ones(), 2);
        assert_eq!(a.count_overlap_ones(&set_of(9, &[1, 3, 4])), 1);
        assert!(!a.get(0));
        let game = set.sample_game_with_board(&board);
        let grid = game.grid.as_ref().unwrap();
        assert_eq!(grid.count_ones(), 2);
        assert_eq!(game.num_mines, 2);
        let regame = set.sample_game(&game);
        assert_eq!(regame.grid.as_ref().unwrap().count_ones(), 2);
    }
}

// ---------------------------------------------------------------------------------------------
// Games and the solver

#[test]
fn internal_game_answers() {
    let grid = set_of(9, &[8]);
    let mut game = InternalGame::from_grid(grid, grid3());
    assert_eq!(game.num_mines(), 1);
    assert_eq!(game.explore_tile(0), Some(0));
    assert_eq!(game.explore_tile(4), Some(1));
    assert_eq!(game.explore_tile(8), None);
}

#[test]
fn internal_game_places_mines_safely() {
    for _ in 0..10 {
        let mut game = InternalGame::new(3, StartType::SafeNeighborhood, grid3());
        assert_eq!(game.explore_tile(0), Some(0));
        let grid = game.grid.as_ref().unwrap();
        assert_eq!(grid.count_ones(), 3);
        assert!(!grid.get(0) && !grid.get(1) && !grid.get(3) && !grid.get(4));
    }
}

#[test]
fn solver_clears_a_small_board() {
    let game = InternalGame::from_grid(set_of(9, &[8]), grid3());
    let mut solver = Solver::from_game(game);
    assert_eq!(solver.uncover_tile(0), Some(()));
    assert_eq!(solver.solve(), Some(()));
    assert!(solver.is_solved());
    let board = solver.into_board();
    assert_eq!(board.grid[8], Tile::Mine { needs_propogate: false });
    assert_eq!(board.grid[4], Tile::Hint { hint: 1, remaining_mines: 0, empties: 0 });
    assert_eq!(board.grid[2], Tile::Hint { hint: 0, remaining_mines: 0, empties: 0 });
}

#[test]
fn solver_plays_a_move() {
    // A corner showing 3 on a 2x2 board: one move finds every mine.
    let game = InternalGame::from_grid(set_of(4, &[1, 2, 3]), Graph2d::new(2, 2, &MOORE_NEIGHBORHOOD));
    let mut solver = Solver::from_game(game);
    assert_eq!(solver.play_move(0), Some(()));
    assert!(solver.is_solved());
    let game = InternalGame::from_grid(set_of(4, &[1]), Graph2d::new(2, 2, &MOORE_NEIGHBORHOOD));
    let mut solver = Solver::from_game(game);
    assert_eq!(solver.play_move(1), None);
    assert_eq!(solver.board().grid[1], Tile::Empty);
}

#[test]
fn solver_leaves_decided_tiles() {
    // A game with no mines placed yet: uncovering a decided tile again asks nothing of it.
    let game = InternalGame::new(1, StartType::Safe, grid3());
    let mut solver = Solver::from_game(game);
    assert_eq!(solver.uncover_tile(0), Some(()));
    let before = solver.board().grid.clone();
    assert_eq!(solver.uncover_tile(0), Some(()));
    assert_eq!(solver.board().grid, before);
}

#[test]
fn solver_without_moves_succeeds() {
    // Nothing to propagate and nothing certain on an untouched board: no game call, no failure.
    let game = InternalGame::new(1, StartType::Safe, grid3());
    let mut solver = Solver::from_game(game);
    let mut tiles: Vec<usize> = Vec::new();
    assert_eq!(solver.propogate(&mut tiles), Some(()));
    assert_eq!(solver.solve(), Some(()));
    assert!(solver.board().grid.iter().all(|t| *t == Tile::Empty));
}

#[test]
fn solver_keeps_going_after_a_refused_hint() {
    // The board wrongly holds a mine at tile 3; the game's only mine is tile 8.
    let game = InternalGame::from_grid(set_of(9, &[8]), grid3());
    let mut solver = Solver::from_game(game);
    solver.flag_tile(3);
    assert_eq!(solver.uncover_tile(2), Some(()));
    assert_eq!(solver.board().grid[2], Tile::Hint { hint: 0, remaining_mines: 0, empties: 3 });
    // Tile 1 shows 0, which the flag at tile 3 contradicts: the hint is not placed, and tile 2
    // no longer counts tile 1 as undecided.
    assert_eq!(solver.uncover_tile(1), Some(()));
    assert_eq!(solver.board().grid[1], Tile::Empty);
    assert_eq!(solver.board().grid[2], Tile::Hint { hint: 0, remaining_mines: 0, empties: 2 });
}

#[test]
fn solver_with_nothing_left_changes_nothing() {
    let game = InternalGame::from_grid(set_of(9, &[8]), grid3());
    let mut solver = Solver::from_game(game);
    assert_eq!(solver.uncover_tile(0), Some(()));
    assert_eq!(solver.solve(), Some(()));
    assert!(solver.is_solved());
    let before = solver.board().grid.clone();
    let mut tiles = vec![0, 4, 8];
    assert_eq!(solver.propogate(&mut tiles), Some(()));
    assert!(tiles.is_empty());
    assert_eq!(solver.solve(), Some(()));
    assert_eq!(solver.play_move(4), Some(()));
    assert_eq!(solver.board().grid, before);
}

#[test]
fn board_checks_before_moves() {
    assert!(grid3().is_wf());
    assert!(!Graph2d::new(usize::MAX, 2, &MOORE_NEIGHBORHOOD).is_wf());
    let mut board = Board::new(grid3(), 1);
    board.set_tile(0, 1).unwrap();
    assert!(board.assert_fits(1));
    board.assert_tile(1);
    board.assert_tile(3);
    // Tile 0 now has one undecided neighbour left, tile 4.
    assert!(board.assert_fits(4));
    board.assert_tile(4);
    assert_eq!(board.grid[0], Tile::Hint { hint: 1, remaining_mines: 1, empties: 0 });
}

#[test]
fn solver_stops_on_a_mine() {
    let game = InternalGame::from_grid(set_of(9, &[8]), grid3());
    let mut solver = Solver::from_game(game);
    assert_eq!(solver.uncover_tile(8), None);
}

#[test]
fn solver_propagates_flags() {
    // A corner showing 3 on a 2x2 board: every other tile is a mine.
    let game = InternalGame::from_grid(set_of(4, &[1, 2, 3]), Graph2d::new(2, 2, &MOORE_NEIGHBORHOOD));
    let mut solver = Solver::from_game(game);
    solver.uncover_tile(0).unwrap();
    let mut tiles = vec![0];
    assert_eq!(solver.propogate(&mut tiles), Some(()));
    assert!(tiles.is_empty());
    assert_eq!(solver.board().grid[1], Tile::Mine { needs_propogate: false });
    assert_eq!(solver.remaining_mines(), 0);
    assert!(solver.is_solved());
}

#[test]
fn solver_flag_needs_room() {
    let game = InternalGame::from_grid(set_of(4, &[3]), Graph2d::new(2, 2, &MOORE_NEIGHBORHOOD));
    let mut solver = Solver::from_game(game);
    solver.uncover_tile(0).unwrap();
    // Tile 0 shows 1: flagging a neighbour fits, flagging a second one does not.
    assert!(solver.board().flag_fits(3));
    solver.flag_tile(3);
    assert!(!solver.board().flag_fits(1));
    assert_eq!(solver.board().placed_mines(), 1);
}

// ---------------------------------------------------------------------------------------------
// Search

#[test]
fn search_tree_counts_visits() {
    let board = Board::new(grid3(), 1);
    let mut tree = Tree::new(board).unwrap();
    for _ in 0..5 {
        assert_eq!(tree.step(), Some(()));
    }
    let visits = tree.visit_counts().unwrap();
    assert_eq!(visits.len(), 9);
    assert_eq!(visits.iter().sum::<usize>(), 5);
    let best = tree.best_move().unwrap();
    assert!(best < 9);
    assert_eq!(visits[best], *visits.iter().max().unwrap());
    let (total, safe) = tree.root_counts().unwrap();
    assert_eq!(value(&total), 9);
    assert_eq!(safe.len(), 9);
}

#[test]
fn search_round_visits_best_tile() {
    // One mine on nine tiles: every tile is safe in 8 placements, so the first round tries the
    // last tile, and a one-round search answers it.
    let board = Board::new(grid3(), 1);
    let mut tree = Tree::new(board.copy()).unwrap();
    tree.step().unwrap();
    assert_eq!(tree.visit_counts().unwrap(), vec![0, 0, 0, 0, 0, 0, 0, 0, 1]);
    assert_eq!(search_fn(1, board), Some(8));
}

#[test]
fn search_with_solutions_answers_from_the_set() {
    let board = Board::new(grid3(), 1);
    assert_eq!(search_with_solutions(0, board.copy(), board.solutionset()), Some(8));
    assert_eq!(search_with_solutions(1, board.copy(), board.solutionset()), Some(8));
    assert!(Tree::from_solutions(board.copy(), board.solutionset()).is_some());
}

#[test]
fn search_answers_a_tile_that_can_be_safe() {
    // Tile 0 shows 1 on a board with one mine: the mine is next to it, and the search never
    // answers the uncovered tile, which no placement counts as safe.
    let mut board = Board::new(grid3(), 1);
    board.set_tile(0, 1).unwrap();
    let counts = board.solutionset().tile_safe_solutions();
    let best = search_fn(3, board).unwrap();
    assert!(value(&counts[best]) > 0);
    assert_ne!(best, 0);
}

#[test]
fn search_finds_a_move() {
    let mut board = Board::new(grid3(), 2);
    board.set_tile(0, 1).unwrap();
    let best = search_fn(5, board).unwrap();
    assert!(best < 9);
}

// ---------------------------------------------------------------------------------------------
// Laws on concrete values

#[test]
fn clearing_undoes_each_move() {
    let mut board = Board::new(grid3(), 2);
    board.set_tile(0, 1).unwrap();
    let start = board.grid.clone();
    board.flag_tile(4);
    board.clear_tile(4);
    assert_eq!(board.grid, start);
    board.assert_tile(3);
    board.clear_tile(3);
    assert_eq!(board.grid, start);
    board.set_tile(1, 2).unwrap();
    board.clear_tile(1);
    assert_eq!(board.grid, start);
}

#[test]
fn normalizing_twice_is_normalizing_once() {
    let mut board = Board::new(grid3(), 3);
    board.set_tile(0, 2).unwrap();
    board.flag_tile(1);
    board.set_tile(8, 1).unwrap();
    let once = board.normalize();
    let twice = once.normalize();
    assert_eq!(once.grid, twice.grid);
    assert_eq!(once.num_mines, twice.num_mines);
    assert_eq!(once.known_mines().count_ones(), 0);
}

#[test]
fn flagging_counts_one_mine() {
    let mut board = Board::new(grid3(), 3);
    let empties = board.remaining_empty_tiles();
    let mines = board.remaining_mines();
    board.flag_tile(5);
    assert_eq!(board.remaining_empty_tiles() + 1, empties);
    assert_eq!(board.remaining_mines() + 1, mines);
}

#[test]
fn subsets_are_ordered() {
    let hint = Tile::Hint { hint: 1, remaining_mines: 1, empties: 2 };
    let a = [hint, Tile::Mine { needs_propogate: false }, Tile::AssertHint { needs_propogate: false }];
    let b = [Tile::AssertHint { needs_propogate: false }, Tile::Mine { needs_propogate: true }, Tile::Empty];
    let c = [Tile::Empty, Tile::Empty, Tile::Empty];
    assert!(is_grid_subset_of(&a, &a));
    assert!(is_grid_subset_of(&a, &b));
    assert!(is_grid_subset_of(&b, &c));
    assert!(is_grid_subset_of(&a, &c));
    assert!(!is_grid_subset_of(&c, &a));
}

#[test]
fn deductions_match_the_mines() {
    // Mines at 2 and 5 on a 3x3 board; tile 3 shows 0 and tile 1 shows 2.
    let game = InternalGame::from_grid(set_of(9, &[2, 5]), grid3());
    let mut solver = Solver::from_game(game);
    solver.uncover_tile(3).unwrap();
    solver.solve().unwrap();
    let board = solver.board();
    for t in 0..9 {
        match board.grid[t] {
            Tile::Mine { .. } => assert!(t == 2 || t == 5),
            Tile::Hint { .. } | Tile::AssertHint { .. } => assert!(t != 2 && t != 5),
            Tile::Empty => {}
        }
    }
}

#[test]
fn bit_positions_lowest_first() {
    let mut it = LocIter(0b10110);
    assert_eq!(it.next(), Some(1));
    assert_eq!(it.0, 0b10100);
    assert_eq!(it.next(), Some(2));
    assert_eq!(it.next(), Some(4));
    assert_eq!(it.next(), None);
    assert_eq!(it.0, 0);
    let mut top = LocIter(1usize << 63);
    assert_eq!(top.next(), Some(63));
    assert_eq!(top.next(), None);
}

#[test]
fn search_tree_keeps_root_after_set_root() {
    let board = Board::new(grid3(), 1);
    let mut tree = Tree::new(board.copy()).unwrap();
    tree.step().unwrap();
    tree.set_root(board.copy());
    assert!(tree.best_move().is_some());
    assert_eq!(tree.visit_counts().unwrap().iter().sum::<usize>(), 1);
}

#[test]
fn searchable_boards() {
    let board = Board::new(grid3(), 1);
    assert!(board.is_searchable());
    let mut crowded = Board::new(grid3(), 1);
    crowded.flag_tile(0);
    assert!(crowded.is_searchable());
    crowded.flag_tile(8);
    assert!(!crowded.is_searchable());
    let short = Board::from_grid(vec![Tile::Empty; 4], grid3(), 1);
    assert!(!short.is_searchable());
}

/// Every placement of the remaining mines on the undecided tiles that gives each hint the
/// mines it still needs among its undecided neighbours.
fn consistent_placements(board: &Board<Graph2d>) -> Vec<Vec<bool>> {
    let n = board.grid.len();
    let empties: Vec<usize> = (0..n).filter(|&t| board.grid[t] == Tile::Empty).collect();
    let flagged = (0..n).filter(|&t| matches!(board.grid[t], Tile::Mine { .. })).count();
    let remaining = board.num_mines - flagged;
    let mut out = Vec::new();
    for bits in 0u32..(1u32 << empties.len()) {
        if bits.count_ones() as usize != remaining {
            continue;
        }
        let mut p = vec![false; n];
        for (k, &t) in empties.iter().enumerate() {
            p[t] = bits & (1 << k) != 0;
        }
        let meets = (0..n).all(|h| match board.grid[h] {
            Tile::Hint { remaining_mines, .. } => {
                board.graph.neighbors(h).iter().filter(|&&t| p[t]).count() == remaining_mines as usize
            }
            _ => true,
        });
        if meets {
            out.push(p);
        }
    }
    out
}

#[test]
fn solved_tiles_hold_in_every_consistent_placement() {
    // Tiles 0 and 1 show 1: the mine next to tile 0 is on 3 or 4, so 2 and 5 are safe.
    let mut board = Board::new(grid3(), 2);
    board.set_tile(0, 1).unwrap();
    board.set_tile(1, 1).unwrap();
    let set = board.solutionset();
    let (safe_tiles, mine_tiles) = set.solved();
    let safe = safe_tiles.iter_ones();
    assert!(safe.contains(&2) && safe.contains(&5));
    let placements = consistent_placements(&board);
    assert!(!placements.is_empty());
    for p in &placements {
        for &t in &safe {
            assert!(!p[t]);
        }
        for &t in &mine_tiles.iter_ones() {
            assert!(p[t]);
        }
    }
    // A full hint in a corner: its neighbours hold the only mines.
    let mut full = Board::new(grid3(), 3);
    full.set_tile(0, 3).unwrap();
    let (safe_tiles, mine_tiles) = full.solutionset().solved();
    for p in &consistent_placements(&full) {
        for &t in &safe_tiles.iter_ones() {
            assert!(!p[t]);
        }
        for &t in &mine_tiles.iter_ones() {
            assert!(p[t]);
        }
    }
}

#[test]
fn sampled_placements_are_consistent() {
    let mut board = Board::new(grid3(), 2);
    board.set_tile(0, 1).unwrap();
    board.set_tile(1, 1).unwrap();
    let set = board.solutionset();
    let placements = consistent_placements(&board);
    for _ in 0..20 {
        let a = set.sample_arrangement();
        assert_eq!(a.count_ones(), set.remaining_mines());
        let p: Vec<bool> = (0..9).map(|t| a.get(t)).collect();
        assert!(placements.contains(&p));
    }
}

#[test]
fn solver_never_uncovers_a_mine_of_a_truthful_game() {
    // On a 5x5 board with mines on 0, 12 and 24, the solver started from each safe tile
    // either finishes or stops, but never hits a mine, and every flag it places is a mine.
    let mines = [0usize, 12, 24];
    for start in 0..25 {
        if mines.contains(&start) {
            continue;
        }
        let game = InternalGame::from_grid(set_of(25, &mines), Graph2d::new(5, 5, &MOORE_NEIGHBORHOOD));
        let mut solver = Solver::from_game(game);
        assert_eq!(solver.uncover_tile(start), Some(()));
        assert_eq!(solver.solve(), Some(()));
        let board = solver.into_board();
        for t in 0..25 {
            match board.grid[t] {
                Tile::Mine { .. } => assert!(mines.contains(&t)),
                Tile::Hint { .. } | Tile::AssertHint { .. } => assert!(!mines.contains(&t)),
                Tile::Empty => {}
            }
        }
    }
}
