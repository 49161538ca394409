use crate::mancala::endgames_table::{
    built_upto, built_value, entry_position, lemma_counts, lookup_in, oracle_in,
    MancalaEndgamesTable, TableEntry,
};
use crate::mancala::exactness::{lemma_game_value_range, lemma_right_oracle, right_about};
use crate::mancala::game_state::{board_of, board_stones, lemma_board_of, MancalaGameState};
use crate::mancala::live::lemma_settled_live;
use crate::mancala::perfect_hash::{lemma_terms_after_empty, normal_counts, position_index};
use crate::mancala::raising::{can_raise, lemma_raised, lemma_raised_value};
use crate::mancala::symmetry::{
    lemma_cells_in_game, lemma_swapped, lemma_swapped_live, lemma_swapped_value, lemma_turned,
};
use crate::minimax::endgames_table::{oracle_of, EndgamesLookup};
use crate::minimax::game_state::GameState;
use crate::minimax::theorems::lemma_widest_window;
use crate::minimax::values::{game_value, minimax_with, pruned_with};
use vstd::prelude::*;

verus! {

/// The board with both stores emptied.
pub open spec fn cleared(pits: Seq<u32>) -> Seq<u32> {
    pits.update(6, 0u32).update(13, 0u32)
}

impl MancalaGameState {
    /// The position seen by the player to move, as the first player.
    pub open spec fn facing(self) -> MancalaGameState {
        if self.turn {
            self
        } else {
            self.swapped()
        }
    }

    /// The position of the table that stands for this one: the stones of the
    /// pits as the player to move sees them, the first player to move, the
    /// stores empty.
    pub open spec fn normal_form(self) -> MancalaGameState {
        MancalaGameState {
            pits: board_of(cleared(self.facing().pits@)),
            turn: true,
            game_over: false,
        }
    }
}

/// What the position of the table that stands for a position of a game is:
/// a position of a game itself, with the same index, from which the position
/// comes back by raising the stores and, for the second player, swapping the
/// sides.
pub proof fn lemma_normal_form(state: MancalaGameState)
    requires
        state.live(),
        !state.game_over,
    ensures
        entry_position(state.normal_form(), state.stones_in_play() as nat),
        state.normal_form().live(),
        board_stones(state.normal_form().pits@) == state.stones_in_play(),
        position_index(state.normal_form()) == position_index(state),
        can_raise(
            state.normal_form(),
            state.facing().pits@[6] as int,
            state.facing().pits@[13] as int,
        ),
        state.facing() == state.normal_form().raised(
            state.facing().pits@[6] as int,
            state.facing().pits@[13] as int,
        ),
        state.facing().pits@[6] == (if state.turn {
            state.pits@[6]
        } else {
            state.pits@[13]
        }),
        state.facing().pits@[13] == (if state.turn {
            state.pits@[13]
        } else {
            state.pits@[6]
        }),
        1 <= state.stones_in_play() <= MancalaGameState::TOTAL_STONES,
{
    let seen = state.facing();
    lemma_swapped(state);
    lemma_swapped_live(state);
    lemma_turned(state.pits@);
    assert(seen.live());
    assert(position_index(seen) == position_index(state));
    let form = state.normal_form();
    lemma_board_of(cleared(seen.pits@));
    lemma_cells_in_game(seen);
    assert(board_stones(form.pits@) == seen.stones_in_play()) by {
        reveal(board_stones);
    }
    assert(normal_counts(form) =~= normal_counts(seen));
    crate::mancala::laws::lemma_stones_in_play(seen);
    lemma_raised(form, seen.pits@[6] as int, seen.pits@[13] as int);
    assert(form.raised(seen.pits@[6] as int, seen.pits@[13] as int).pits@ =~= seen.pits@);
    assert(form.raised(seen.pits@[6] as int, seen.pits@[13] as int).pits =~= seen.pits);
}

/// The position without a stone in its pits has the index zero.
pub proof fn lemma_empty_index(state: MancalaGameState)
    requires
        state.stones_in_play() == 0,
    ensures
        position_index(state) == 0,
{
    lemma_counts(state);
    lemma_terms_after_empty(normal_counts(state), 0, 12);
}

/// What a built table knows of the positions of a game is right: a table that
/// holds the levels up to `held`, with the entries that the build gives them,
/// gives every position of a game that it knows the value of the game.
pub proof fn lemma_table_right(entries: Seq<TableEntry>, levels: nat, held: nat, stones: int)
    requires
        built_upto(entries, levels),
        held <= levels <= MancalaGameState::TOTAL_STONES,
    ensures
        right_about(oracle_in(entries, held as u32), stones),
{
    let oracle = oracle_in(entries, held as u32);
    assert forall|state: MancalaGameState|
        state.live() && board_stones(state.pits@) == stones && #[trigger] oracle(state)
            is Some implies oracle(state)->0 == game_value(state) by {
        lemma_cells_in_game(state);
        if state.game_over {
            lemma_empty_index(state);
        } else {
            lemma_looked_up(entries, levels, held, state);
        }
    }
}

/// The value that a built table gives for a position of a game that goes on
/// and that the table knows.
proof fn lemma_looked_up(entries: Seq<TableEntry>, levels: nat, held: nat, state: MancalaGameState)
    requires
        built_upto(entries, levels),
        held <= levels <= MancalaGameState::TOTAL_STONES,
        state.live(),
        !state.game_over,
        state.stones_in_play() <= held,
    ensures
        lookup_in(entries, held as u32, state) == Some(game_value(state) as i32),
        i32::MIN <= game_value(state) <= i32::MAX,
    decreases held + 1, 0nat,
{
    let form = state.normal_form();
    let seen = state.facing();
    let in_play = state.stones_in_play();
    lemma_normal_form(state);
    lemma_entry_exact(entries, levels, form);
    lemma_game_value_range(state);
    lemma_cells_in_game(state);
    lemma_raised_value(form, seen.pits@[6] as int, seen.pits@[13] as int);
    if !state.turn {
        lemma_swapped_value(state);
    }
    lemma_game_value_range(form);
}

/// Endgame consistency: in a built table, the entry of a position is the
/// value of the game from the position after the end-of-game test.
pub proof fn lemma_entry_exact(entries: Seq<TableEntry>, levels: nat, state: MancalaGameState)
    requires
        built_upto(entries, levels),
        levels <= MancalaGameState::TOTAL_STONES,
        1 <= state.stones_in_play() <= levels,
        entry_position(state, state.stones_in_play() as nat),
    ensures
        entries[position_index(state)].evaluation == game_value(state.settled()),
        built_value(entries, state) == game_value(state.settled()),
    decreases state.stones_in_play(), 2nat,
{
    let in_play = state.stones_in_play();
    let below = oracle_in(entries, (in_play - 1) as u32);
    assert(board_stones(state.pits@) == in_play) by {
        reveal(board_stones);
    }
    lemma_settled_live(state);
    let settled = state.settled();
    crate::mancala::game_state::lemma_settled_keeps_stones(state);
    lemma_table_right_below(entries, levels, (in_play - 1) as nat, in_play);
    lemma_widest_window(below, false, settled, None);
    lemma_right_oracle(below, false, settled);
    lemma_game_value_range(settled);
}

/// What a built table knows from the levels below a level is right.
proof fn lemma_table_right_below(entries: Seq<TableEntry>, levels: nat, held: nat, stones: int)
    requires
        built_upto(entries, levels),
        held < levels <= MancalaGameState::TOTAL_STONES,
    ensures
        right_about(oracle_in(entries, held as u32), stones),
    decreases held + 1, 1nat,
{
    let oracle = oracle_in(entries, held as u32);
    assert forall|state: MancalaGameState|
        state.live() && board_stones(state.pits@) == stones && #[trigger] oracle(state)
            is Some implies oracle(state)->0 == game_value(state) by {
        lemma_cells_in_game(state);
        if state.game_over {
            lemma_empty_index(state);
        } else {
            lemma_looked_up(entries, levels, held, state);
        }
    }
}

/// A table that is ready and built is right: what it knows of a position of
/// a game is the value of the game, and it knows every position of a game
/// with no more stones in its pits than the table holds.
pub proof fn lemma_lookup_exact(endgames_table: &MancalaEndgamesTable, state: MancalaGameState)
    requires
        endgames_table.is_built(),
        endgames_table.current_stones <= MancalaGameState::TOTAL_STONES,
        state.live(),
    ensures
        endgames_table.value_of(state) == (if state.stones_in_play()
            <= endgames_table.current_stones {
            Some(game_value(state) as i32)
        } else {
            None
        }),
        i32::MIN <= game_value(state) <= i32::MAX,
        right_about(oracle_of(endgames_table), board_stones(state.pits@)),
{
    let entries = endgames_table.table@;
    let held = endgames_table.current_stones as nat;
    lemma_game_value_range(state);
    lemma_cells_in_game(state);
    if state.stones_in_play() <= held {
        if state.game_over {
            lemma_empty_index(state);
        } else {
            lemma_looked_up(entries, held, held, state);
        }
    }
    lemma_table_right(entries, held, held, board_stones(state.pits@));
    assert(oracle_of(endgames_table) =~= oracle_in(entries, endgames_table.current_stones));
}

/// Endgame consistency: every entry of a built table is the value that
/// alpha-beta search to the end of the game finds for the entry's position
/// with any built table to consult, be it one that knows the empty board
/// alone.
pub proof fn lemma_endgame_consistency(
    endgames_table: &MancalaEndgamesTable,
    consulted: &MancalaEndgamesTable,
    state: MancalaGameState,
)
    requires
        endgames_table.is_built(),
        endgames_table.current_stones <= MancalaGameState::TOTAL_STONES,
        consulted.is_built(),
        consulted.current_stones <= MancalaGameState::TOTAL_STONES,
        1 <= state.stones_in_play() <= endgames_table.current_stones,
        entry_position(state, state.stones_in_play() as nat),
    ensures
        endgames_table.table@[position_index(state)].evaluation == pruned_with(
            oracle_of(consulted),
            false,
            state.settled(),
            None,
            i32::MIN as int,
            i32::MAX as int,
        ),
        endgames_table.table@[position_index(state)].evaluation == game_value(state.settled()),
{
    let settled = state.settled();
    lemma_entry_exact(endgames_table.table@, endgames_table.current_stones as nat, state);
    assert(board_stones(state.pits@) == state.stones_in_play()) by {
        reveal(board_stones);
    }
    lemma_settled_live(state);
    lemma_lookup_exact(consulted, settled);
    lemma_widest_window(oracle_of(consulted), false, settled, None);
    lemma_right_oracle(oracle_of(consulted), false, settled);
}

/// With a built table, the value that a strong solve finds for a position of
/// a game is the value of the game.
pub proof fn lemma_solve_exact(endgames_table: &MancalaEndgamesTable, state: MancalaGameState)
    requires
        endgames_table.is_built(),
        endgames_table.current_stones <= MancalaGameState::TOTAL_STONES,
        state.live(),
    ensures
        minimax_with(oracle_of(endgames_table), true, state, None) == game_value(state),
{
    lemma_lookup_exact(endgames_table, state);
    lemma_right_oracle(oracle_of(endgames_table), true, state);
}

} // verus!
