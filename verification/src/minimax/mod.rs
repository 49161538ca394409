//! Game-independent search: the capabilities a game provides and the search
//! algorithms built on them.
pub mod endgames_table;
pub mod game_state;
pub mod memory;
pub mod minimax_solver;
pub mod solver;
pub mod theorems;
pub mod transposition_table;
pub mod values;

pub use endgames_table::EndgamesLookup;
pub use endgames_table::EndgamesTable;
pub use game_state::GameLaws;
pub use game_state::GameState;
pub use minimax_solver::MinimaxSolver;
pub use solver::Solver;
pub use transposition_table::TranspositionTable;
