use crate::mancala::game_state::{board_stones, MancalaGameState};
use crate::mancala::live::lemma_live_successors;
use crate::mancala::symmetry::lemma_cells_in_game;
use crate::minimax::game_state::{GameLaws, GameState};
use crate::minimax::values::{best_of_first, game_value, minimax_with, no_oracle, worst, Oracle};
use vstd::prelude::*;

verus! {

/// The value of a position of a game lies between the stones of the board
/// taken negatively and positively: no player can win more than there is.
pub proof fn lemma_game_value_range(state: MancalaGameState)
    requires
        state.live(),
    ensures
        -board_stones(state.pits@) <= game_value(state) <= board_stones(state.pits@),
    decreases state.horizon(), 1nat, 0nat,
{
    lemma_cells_in_game(state);
    if !state.game_over {
        lemma_live_successors(state);
        lemma_best_value_range(state, state.successors().len());
    } else {
        crate::mancala::laws::lemma_stones_in_play(state);
    }
}

/// The best of the values of the first successors of a position of a game
/// lies in the same range.
pub proof fn lemma_best_value_range(state: MancalaGameState, count: nat)
    requires
        state.live(),
        !state.game_over,
        1 <= count <= state.successors().len(),
    ensures
        -board_stones(state.pits@) <= best_of_first(no_oracle(), false, state, None, count)
            <= board_stones(state.pits@),
    decreases state.horizon(), 0nat, count,
{
    lemma_live_successors(state);
    state.lemma_successor(count - 1);
    let child = state.successors()[count - 1];
    lemma_game_value_range(child);
    if count > 1 {
        lemma_best_value_range(state, (count - 1) as nat);
    } else {
        assert(best_of_first(no_oracle::<MancalaGameState>(), false, state, None, 0) == worst(
            state.maximising(),
        ));
    }
}

/// The oracle is right about the positions of a game with `stones` stones on
/// the board: what it knows of such a position is the position's value.
pub open spec fn right_about(oracle: Oracle<MancalaGameState>, stones: int) -> bool {
    forall|state: MancalaGameState|
        state.live() && board_stones(state.pits@) == stones && #[trigger] oracle(state) is Some
            ==> oracle(state)->0 == game_value(state)
}

/// An oracle that is right does not change the value of the game: the minimax
/// value with its word taken is the value of the game played to its end.
pub proof fn lemma_right_oracle(
    oracle: Oracle<MancalaGameState>,
    oracle_first: bool,
    state: MancalaGameState,
)
    requires
        state.live(),
        right_about(oracle, board_stones(state.pits@)),
    ensures
        minimax_with(oracle, oracle_first, state, None) == game_value(state),
    decreases state.horizon(), 1nat, 0nat,
{
    if oracle(state) is None && !state.game_over {
        lemma_right_oracle_best(oracle, oracle_first, state, state.successors().len());
    }
}

/// The same of the best of the values of the first successors.
proof fn lemma_right_oracle_best(
    oracle: Oracle<MancalaGameState>,
    oracle_first: bool,
    state: MancalaGameState,
    count: nat,
)
    requires
        state.live(),
        !state.game_over,
        oracle(state) is None,
        right_about(oracle, board_stones(state.pits@)),
        count <= state.successors().len(),
    ensures
        best_of_first(oracle, oracle_first, state, None, count) == best_of_first(
            no_oracle(),
            false,
            state,
            None,
            count,
        ),
    decreases state.horizon(), 0nat, count,
{
    if count > 0 {
        lemma_live_successors(state);
        state.lemma_successor(count - 1);
        lemma_right_oracle(oracle, oracle_first, state.successors()[count - 1]);
        lemma_right_oracle_best(oracle, oracle_first, state, (count - 1) as nat);
    }
}

} // verus!
