use crate::minimax::game_state::GameLaws;
use crate::minimax::values::Oracle;
use vstd::prelude::*;

verus! {

/// What the search asks of a table of states whose value is known without
/// search.
pub trait EndgamesLookup<T: GameLaws> {
    /// The table is filled and can be consulted.
    spec fn ready(&self) -> bool;

    /// `state` belongs to the game that the table was made for.
    spec fn serves(&self, state: &T) -> bool;

    /// What the table says of `state`.
    spec fn spec_lookup(&self, state: &T) -> Option<i32>;

    /// A table that serves a state serves all that follows from it.
    proof fn lemma_serves_successors(&self, state: T, i: int)
        requires
            state.valid(),
            self.serves(&state),
            0 <= i < state.successors().len(),
        ensures
            self.serves(&state.successors()[i]),
    ;

    /// The value of `game_state`, if the table holds it.
    fn lookup(&self, game_state: &T) -> (value: Option<i32>)
        requires
            self.ready(),
            game_state.valid(),
            self.serves(game_state),
        ensures
            value == self.spec_lookup(game_state),
    ;
}

/// A table of states whose value is known without search: it can be filled,
/// and then consulted.
pub trait EndgamesTable<T: GameLaws>: EndgamesLookup<T> {
    /// The table has not been filled yet.
    spec fn blank(&self) -> bool;

    /// Fills the table.
    fn calculate_endgames(&mut self)
        requires
            old(self).blank(),
        ensures
            final(self).ready(),
    ;
}

/// What `table` knows, as the search sees it.
pub open spec fn oracle_of<T: GameLaws, E: EndgamesLookup<T>>(table: &E) -> Oracle<T> {
    |state: T|
        match table.spec_lookup(&state) {
            Some(value) => Some(value as int),
            None => None,
        }
}

} // verus!
