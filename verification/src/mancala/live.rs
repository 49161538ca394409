use crate::mancala::game_state::{
    board_of, board_stones, last_sown, lemma_board_of, lemma_one_cell, lemma_side_upto,
    lemma_two_cells, partly_sown, ring_distance, side_stones, sown, swept, MancalaGameState,
};
use crate::mancala::laws::{board_after, lemma_after_move, lemma_board_after, lemma_legal_moves};
use crate::minimax::game_state::{GameLaws, GameState};
use vstd::prelude::*;

verus! {

/// What a sowing leaves in the cell `i`: what the cell held, nothing for the
/// source, and with it one seed for every full lap and one more if the last
/// lap reaches the cell.
pub proof fn lemma_sown_cell(pits: Seq<u32>, source: int, skipped: int, i: int)
    requires
        pits.len() == 14,
        skipped == 6 || skipped == 13,
        0 <= source < 14,
        source != 6,
        source != 13,
        board_stones(pits) <= MancalaGameState::TOTAL_STONES,
        0 <= i < 14,
    ensures
        sown(pits, source, skipped).len() == 14,
        sown(pits, source, skipped)[i] == (if i == skipped {
            pits[i] as int
        } else {
            (if i == source {
                0int
            } else {
                pits[i] as int
            }) + pits[source] as int / 13 + (if ring_distance(source, i, skipped) <= pits[source] as int
                % 13 {
                1int
            } else {
                0int
            })
        }),
{
    reveal(partly_sown);
    lemma_one_cell(pits, i);
    lemma_one_cell(pits, source);
    if i != source {
        lemma_two_cells(pits, i, source);
    }
}

impl MancalaGameState {
    /// The position is one of a game: the board holds no more than the
    /// stones of the game; while the game goes on, both sides hold stones; and
    /// when it is over, no stone is left in a pit.
    pub open spec fn live(&self) -> bool {
        &&& board_stones(self.pits@) <= MancalaGameState::TOTAL_STONES
        &&& if self.game_over {
            self.stones_in_play() == 0
        } else {
            side_stones(self.pits@, 0) > 0 && side_stones(self.pits@, 7) > 0
        }
    }
}

/// The end-of-game test makes a position of a game of every position that is
/// not marked as over.
pub proof fn lemma_settled_live(state: MancalaGameState)
    requires
        board_stones(state.pits@) <= MancalaGameState::TOTAL_STONES,
        !state.game_over,
    ensures
        state.settled().live(),
        state.live() ==> state.settled() == state,
{
    lemma_board_of(swept(state.pits@, 7, 13));
    lemma_board_of(swept(state.pits@, 0, 6));
    reveal(board_stones);
}

/// A move from a position of a game leads to a position of a game.
pub proof fn lemma_child_live(state: MancalaGameState, source: int)
    requires
        state.live(),
        !state.game_over,
        state.first_pit() <= source < state.first_pit() + 6,
        state.pits@[source] > 0,
    ensures
        state.child(source).live(),
        board_stones(state.child(source).pits@) == board_stones(state.pits@),
{
    let own = state.own_store();
    let other = state.other_store();
    lemma_after_move(state, source, own, other);
    lemma_board_after(state, source, own, other);
    let board = board_after(state, source, own, other);
    let last = last_sown(source, state.pits@[source] as int, other);
    let moved = MancalaGameState {
        pits: board_of(board),
        turn: if last == own {
            state.turn
        } else {
            !state.turn
        },
        game_over: state.game_over,
    };
    let after = state.child(source);
    if after == moved.settled() {
        lemma_settled_live(moved);
    } else {
        let sown_pits = sown(state.pits@, source, other);
        assert(board == sown_pits);
        assert(source != 5 && source != 12);
        lemma_sown_cell(state.pits@, source, other, source + 1);
        lemma_sown_cell(state.pits@, source, other, other - 6);
        lemma_sown_cell(state.pits@, source, other, other - 5);
        lemma_sown_cell(state.pits@, source, other, other - 4);
        lemma_sown_cell(state.pits@, source, other, other - 3);
        lemma_sown_cell(state.pits@, source, other, other - 2);
        lemma_sown_cell(state.pits@, source, other, other - 1);
        lemma_sown_cell(state.pits@, source, other, own - 6);
        lemma_sown_cell(state.pits@, source, other, own - 5);
        lemma_sown_cell(state.pits@, source, other, own - 4);
        lemma_sown_cell(state.pits@, source, other, own - 3);
        lemma_sown_cell(state.pits@, source, other, own - 2);
        lemma_sown_cell(state.pits@, source, other, own - 1);
        assert(sown_pits[source + 1] >= 1);
        assert(side_stones(sown_pits, other - 6) >= side_stones(state.pits@, other - 6));
        assert(side_stones(sown_pits, own - 6) >= 1);
    }
}

/// The successors of a position of a game are positions of a game with the
/// same stones, and while the game goes on there is at least one.
pub proof fn lemma_live_successors(state: MancalaGameState)
    requires
        state.live(),
        !state.game_over,
    ensures
        state.successors().len() >= 1,
        forall|i: int|
            0 <= i < state.successors().len() ==> {
                &&& (#[trigger] state.successors()[i]).live()
                &&& board_stones(state.successors()[i].pits@) == board_stones(state.pits@)
            },
{
    state.lemma_moves_len(6, true);
    lemma_legal_moves(state, 6);
    lemma_side_upto(state.pits@, state.first_pit());
    state.lemma_moves_are_own(6, true);
    state.lemma_moves_are_own(6, false);
    assert forall|i: int| 0 <= i < state.successors().len() implies {
        &&& (#[trigger] state.successors()[i]).live()
        &&& board_stones(state.successors()[i].pits@) == board_stones(state.pits@)
    } by {
        lemma_child_live(state, state.ordered_moves()[i] as int);
    }
}

} // verus!
