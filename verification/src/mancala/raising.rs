use crate::mancala::exactness::lemma_game_value_range;
use crate::mancala::game_state::{
    board_of, board_stones, captured, last_sown, lemma_board_of, own_pit, sown, swept,
    MancalaGameState,
};
use crate::mancala::laws::{board_after, lemma_after_move, lemma_board_after};
use crate::mancala::live::{lemma_live_successors, lemma_sown_cell};
use crate::mancala::symmetry::lemma_cells_in_game;
use crate::minimax::game_state::{GameLaws, GameState};
use crate::minimax::values::{best_of_first, game_value, no_oracle, worst};
use vstd::prelude::*;

verus! {

/// The board with `first` more stones in the first player's store and `second`
/// more in the second player's.
pub open spec fn raised_board(pits: Seq<u32>, first: int, second: int) -> Seq<u32> {
    Seq::new(
        14,
        |i: int|
            if i == 6 {
                (pits[6] + first) as u32
            } else if i == 13 {
                (pits[13] + second) as u32
            } else {
                pits[i]
            },
    )
}

impl MancalaGameState {
    /// The position with `first` more stones in the first player's store and
    /// `second` more in the second player's.
    pub open spec fn raised(self, first: int, second: int) -> MancalaGameState {
        MancalaGameState {
            pits: board_of(raised_board(self.pits@, first, second)),
            turn: self.turn,
            game_over: self.game_over,
        }
    }
}

/// The stores of a game can be raised as far as the stones of the game allow.
pub open spec fn can_raise(state: MancalaGameState, first: int, second: int) -> bool {
    &&& 0 <= first
    &&& 0 <= second
    &&& board_stones(state.pits@) + first + second <= MancalaGameState::TOTAL_STONES
}

/// What raising the stores does to a position: the pits stay as they were,
/// the stores and the board gain the stones, and a position of a game stays
/// one.
pub proof fn lemma_raised(state: MancalaGameState, first: int, second: int)
    requires
        can_raise(state, first, second),
    ensures
        state.raised(first, second).pits@ == raised_board(state.pits@, first, second),
        board_stones(state.raised(first, second).pits@) == board_stones(state.pits@) + first
            + second,
        forall|i: int|
            0 <= i < 14 && i != 6 && i != 13 ==> #[trigger] state.raised(first, second).pits@[i]
                == state.pits@[i],
        state.raised(first, second).pits@[6] == state.pits@[6] + first,
        state.raised(first, second).pits@[13] == state.pits@[13] + second,
        state.live() ==> state.raised(first, second).live(),
        state.raised(first, second).horizon() == state.horizon(),
        state.raised(first, second).score() == state.score() + first - second,
{
    lemma_board_of(raised_board(state.pits@, first, second));
    lemma_cells_in_game(state);
    reveal(board_stones);
}

/// The end-of-game test does to a position with raised stores what it does to
/// the position itself.
pub proof fn lemma_raised_settled(state: MancalaGameState, first: int, second: int)
    requires
        can_raise(state, first, second),
    ensures
        state.raised(first, second).settled() == state.settled().raised(first, second),
{
    lemma_raised(state, first, second);
    let high = state.raised(first, second);
    lemma_cells_in_game(state);
    lemma_cells_in_game(high);
    lemma_board_of(swept(state.pits@, 7, 13));
    lemma_board_of(swept(state.pits@, 0, 6));
    lemma_board_of(swept(high.pits@, 7, 13));
    lemma_board_of(swept(high.pits@, 0, 6));
    crate::mancala::game_state::lemma_settled_keeps_stones(state);
    lemma_board_of(raised_board(state.settled().pits@, first, second));
    assert(high.settled().pits@ =~= state.settled().raised(first, second).pits@) by {
        reveal(board_stones);
    }
    assert(high.settled().pits =~= state.settled().raised(first, second).pits);
}

/// A move does to the board of a position with raised stores what it does to
/// the board of the position itself.
pub proof fn lemma_raised_board_after(
    state: MancalaGameState,
    first: int,
    second: int,
    source: int,
    players_store: int,
    opponents_store: int,
)
    requires
        can_raise(state, first, second),
        own_pit(source, players_store, opponents_store),
    ensures
        board_after(state.raised(first, second), source, players_store, opponents_store)
            == raised_board(
            board_after(state, source, players_store, opponents_store),
            first,
            second,
        ),
{
    lemma_raised(state, first, second);
    let high = state.raised(first, second);
    let low_sown = sown(state.pits@, source, opponents_store);
    let high_sown = sown(high.pits@, source, opponents_store);
    assert forall|i: int| 0 <= i < 14 implies #[trigger] high_sown[i] == raised_board(
        low_sown,
        first,
        second,
    )[i] by {
        lemma_sown_cell(state.pits@, source, opponents_store, i);
        lemma_sown_cell(high.pits@, source, opponents_store, i);
    }
    lemma_sown_cell(state.pits@, source, opponents_store, 0);
    lemma_sown_cell(high.pits@, source, opponents_store, 0);
    assert(high_sown =~= raised_board(low_sown, first, second));
    let last = last_sown(source, state.pits@[source] as int, opponents_store);
    if last != players_store && players_store - 6 <= last < players_store && low_sown[last] == 1 {
        crate::mancala::laws::lemma_sown_stones(state.pits@, source, opponents_store);
        crate::mancala::laws::lemma_sown_stones(high.pits@, source, opponents_store);
        crate::mancala::game_state::lemma_two_cells(high_sown, 12 - last, players_store);
        crate::mancala::game_state::lemma_two_cells(low_sown, 12 - last, players_store);
        let low_taken = captured(low_sown, last, players_store);
        let high_taken = captured(high_sown, last, players_store);
        assert(low_taken[players_store] == low_sown[players_store] + low_sown[12 - last]);
        assert(high_taken[players_store] == high_sown[players_store] + high_sown[12 - last]);
        assert(high_sown[12 - last] == low_sown[12 - last]);
        assert forall|i: int| 0 <= i < 14 implies #[trigger] high_taken[i] == raised_board(
            low_taken,
            first,
            second,
        )[i] by {
            if i == players_store {
            } else if i == 12 - last {
            } else {
                assert(high_taken[i] == high_sown[i]);
                assert(low_taken[i] == low_sown[i]);
            }
        }
        assert(captured(high_sown, last, players_store) =~= raised_board(
            captured(low_sown, last, players_store),
            first,
            second,
        ));
    }
}

/// Raising the stores commutes with a move: the position after the move has
/// the stores raised by as much.
pub proof fn lemma_raised_child(state: MancalaGameState, first: int, second: int, source: int)
    requires
        can_raise(state, first, second),
        state.first_pit() <= source < state.first_pit() + 6,
    ensures
        state.raised(first, second).child(source) == state.child(source).raised(first, second),
{
    let own = state.own_store();
    let other = state.other_store();
    let high = state.raised(first, second);
    lemma_raised(state, first, second);
    lemma_raised_board_after(state, first, second, source, own, other);
    lemma_after_move(state, source, own, other);
    lemma_after_move(high, source, own, other);
    let board = board_after(state, source, own, other);
    let last = last_sown(source, state.pits@[source] as int, other);
    let moved = MancalaGameState {
        pits: board_of(board),
        turn: if last == own {
            state.turn
        } else {
            !state.turn
        },
        game_over: state.game_over,
    };
    lemma_board_of(raised_board(board, first, second));
    lemma_board_after(state, source, own, other);
    lemma_raised(moved, first, second);
    let high_moved = MancalaGameState {
        pits: board_of(board_after(high, source, own, other)),
        turn: moved.turn,
        game_over: moved.game_over,
    };
    assert(high_moved.pits =~= moved.raised(first, second).pits);
    assert(high_moved == moved.raised(first, second));
    lemma_raised_settled(moved, first, second);
    lemma_sown_cell(state.pits@, source, other, last);
    lemma_sown_cell(high.pits@, source, other, last);
}

/// Raising the stores changes no move: the player to move has the same moves,
/// and the same of them earn an extra turn.
pub proof fn lemma_raised_moves(
    state: MancalaGameState,
    first: int,
    second: int,
    k: int,
    extra: bool,
)
    requires
        can_raise(state, first, second),
        0 <= k <= 6,
    ensures
        state.raised(first, second).moves_upto(k, extra) == state.moves_upto(k, extra),
    decreases k,
{
    lemma_raised(state, first, second);
    if k > 0 {
        lemma_raised_moves(state, first, second, k - 1, extra);
    }
}

/// The successors of a position with raised stores are the successors of the
/// position, with the stores raised by as much.
pub proof fn lemma_raised_successors(state: MancalaGameState, first: int, second: int)
    requires
        can_raise(state, first, second),
    ensures
        state.raised(first, second).successors().len() == state.successors().len(),
        forall|i: int|
            0 <= i < state.successors().len() ==> #[trigger] state.raised(
                first,
                second,
            ).successors()[i] == state.successors()[i].raised(first, second),
{
    lemma_raised_moves(state, first, second, 6, true);
    lemma_raised_moves(state, first, second, 6, false);
    state.lemma_moves_are_own(6, true);
    state.lemma_moves_are_own(6, false);
    assert forall|i: int| 0 <= i < state.successors().len() implies #[trigger] state.raised(
        first,
        second,
    ).successors()[i] == state.successors()[i].raised(first, second) by {
        lemma_raised_child(state, first, second, state.ordered_moves()[i] as int);
    }
}

/// Stones in the stores are won for good: the value of a position of a game
/// with raised stores is the value of the position, raised by the difference
/// of what the stores gained.
pub proof fn lemma_raised_value(state: MancalaGameState, first: int, second: int)
    requires
        state.live(),
        can_raise(state, first, second),
    ensures
        game_value(state.raised(first, second)) == game_value(state) + first - second,
    decreases state.horizon(), 1nat, 0nat,
{
    lemma_raised(state, first, second);
    if !state.game_over {
        lemma_raised_successors(state, first, second);
        lemma_live_successors(state);
        lemma_raised_best(state, first, second, state.successors().len());
    }
}

/// The same of the best of the values of the first successors.
proof fn lemma_raised_best(state: MancalaGameState, first: int, second: int, count: nat)
    requires
        state.live(),
        !state.game_over,
        can_raise(state, first, second),
        1 <= count <= state.successors().len(),
    ensures
        best_of_first(no_oracle(), false, state.raised(first, second), None, count)
            == best_of_first(no_oracle(), false, state, None, count) + first - second,
    decreases state.horizon(), 0nat, count,
{
    let high = state.raised(first, second);
    lemma_raised(state, first, second);
    lemma_raised_successors(state, first, second);
    lemma_live_successors(state);
    state.lemma_successor(count - 1);
    let child = state.successors()[count - 1];
    lemma_raised_value(child, first, second);
    lemma_game_value_range(child);
    lemma_raised(child, first, second);
    lemma_game_value_range(child.raised(first, second));
    if count > 1 {
        lemma_raised_best(state, first, second, (count - 1) as nat);
    } else {
        assert(best_of_first(no_oracle::<MancalaGameState>(), false, state, None, 0) == worst(
            state.maximising(),
        ));
        assert(best_of_first(no_oracle::<MancalaGameState>(), false, high, None, 0) == worst(
            high.maximising(),
        ));
    }
}

} // verus!
