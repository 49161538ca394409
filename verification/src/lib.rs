//! A solver for Kalah(6,4): the rule machine, depth-limited and unlimited
//! alpha-beta search, MTD(f) with a transposition table, and an endgame
//! database indexed by a combinatorial perfect hash.
pub mod mancala;
pub mod minimax;
pub mod tree;
