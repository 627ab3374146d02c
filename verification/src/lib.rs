//! Search algorithms for small grid games: greedy and random baselines,
//! minimax, beam and chokudai search, primitive Monte Carlo, MCTS and
//! decoupled UCT, each verified against a mathematical model of the game
//! it plays.
#![allow(non_snake_case)]
#![allow(non_upper_case_globals)]
#![allow(non_camel_case_types)]
#![allow(unused_imports)]

pub mod alternate;
pub mod auto_move;
pub mod beam;
pub mod character;
pub mod choice;
pub mod duct;
pub mod grid;
pub mod maze;
pub mod montecarlo;
pub mod random;
pub mod simultaneous;
pub mod text;
pub mod wall_maze;
