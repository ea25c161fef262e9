//! A Sudoku engine: cells with candidate sets, a board with constraint
//! propagation and backtracking search, a search for a pool of workers, and
//! a puzzle generator.
//!
//! - `cell`: one position of the grid, a fixed digit or a set of candidates.
//! - `units`: the rows, columns and blocks.
//! - `grid`: grids of digits, solutions, and grid strings.
//! - `state`: board states, the solutions that they admit, and what
//!   propagation keeps.
//! - `model`: what each step of propagation and search computes.
//! - `board`: the board itself.
//! - `render`: the board as a picture in text.
//! - `search`: the search as a frontier that workers share.
//! - `pool`: the workers of that search, turn by turn.
//! - `generator`: solved grids by chance, and puzzles dug out of them.
//! - `view`: what the screen shows of a game, and what a key does to it.
//! - `outside`: the calls into other crates, whose contracts are taken on
//!   trust.

pub mod cell;
pub mod units;
pub mod grid;
pub mod state;
pub mod model;
pub mod board;
pub mod render;
pub mod search;
pub mod pool;
mod outside;
pub mod generator;
pub mod view;
