//! The Kalah rule machine and what is built on it.
pub mod counting;
pub mod endgames_table;
pub mod exactness;
pub mod game_state;
pub mod interactive;
pub mod laws;
pub mod live;
pub mod memory_range;
pub mod moves;
pub mod perfect_hash;
pub mod persistence;
pub mod raising;
pub mod symmetry;
pub mod table_exactness;

pub use game_state::MancalaGameState;
pub use moves::MancalaMove;
pub use endgames_table::MancalaEndgamesTable;
