mod inline_vec;
pub mod bits;
pub mod bitset;
pub mod graph;
pub mod board;
pub mod game;
pub mod counting;
pub mod arrangements;
pub mod placements;
pub mod combinations;
pub mod solution_counting;
pub mod solver;
pub mod sampling;
pub mod search;
