//! A solver for a tile-matching word game played on a rectangular grid of
//! letters: words are traced along 8-connected paths, played paths are cleared
//! from the board (with bonus clearing rules), gravity compacts each column,
//! and an optimizer searches for a high-scoring sequence of plays.


pub mod annealers;
pub mod board;
pub mod parse;
pub mod paths;
pub mod puzzmo;
pub mod rng;
pub mod solver;
pub mod scoring;
pub mod words;

