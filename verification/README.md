# minesolver

A minesweeper solver and move search, written in Verus. The library deduces which
undecided tiles are safe and which hold mines, counts the placements of the remaining
mines region by region, draws placements at random, and runs a Monte-Carlo style search
for the best move.

What is proved of the arrangements: the placements they admit are exactly the placements
consistent with the board (on boards with consistent hint counters where no hint without
undecided neighbours still needs a mine), and a drawn placement is one of them. The counts are proved equal to the counting formulas they
implement, and positive whenever some placement is admitted; that those formulas count the
admitted placements exactly is not proved.

Layout of `src/`:

- `bits.rs`, `bitset.rs`, `inline_vec.rs`: sets of tiles stored as 64-bit words.
- `graph.rs`: graphs of tiles (`Graph2d`, `PrecomputedGraph`).
- `board.rs`: what the solver knows of each tile, and the moves that change it, with
  laws on the hint counters they keep.
- `game.rs`: the `Game` interface and a game that places its own mines.
- `combinations.rs`: every placement of a number of mines on groups of tiles.
- `arrangements.rs`: the possible arrangements of the mines, region by region, with the
  proof that the placements they admit are the placements consistent with the board and
  that the tiles `solved` reports are safe (or mined) in all of them.
- `placements.rs`: placements of mines, their canonical forms on groups of tiles, and the
  lemmas that carry a placement's representation through the operations on arrangement sets.
- `counting.rs`, `solution_counting.rs`: binomials, numbers of any size, and the
  number of placements (in all, and with each tile safe).
- `sampling.rs`: placements drawn at random, proved consistent with the board.
- `solver.rs`: propagation of hints and the solving loop, with the soundness of its two
  deduction rules, the link from a placement of all mines that agrees with the board to a
  consistent placement of the remaining ones, and the proof that on a game whose mines agree
  with the board the solver never uncovers a mine and keeps agreeing with the game.
- `search.rs`: the search tree; each round adds exactly one visit at the root, to the tile
  the round starts with, and the answer of a search is the most visited tile after its
  rounds.

`app/main.rs` runs the search on an expert board and prints the move; it also holds the
floating-point views of the counts. `tests/` exercises the library on small boards.
