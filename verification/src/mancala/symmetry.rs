use crate::mancala::endgames_table::{lookup_in, TableEntry};
use crate::mancala::exactness::lemma_game_value_range;
use crate::mancala::game_state::{
    board_of, board_stones, captured, last_sown, lemma_board_of, lemma_two_cells, own_pit,
    ring_distance, sown, swept, MancalaGameState,
};
use crate::mancala::laws::{board_after, lemma_after_move, lemma_board_after, lemma_sown_stones};
use crate::mancala::live::{lemma_live_successors, lemma_sown_cell};
use crate::mancala::perfect_hash::{normal_counts, position_index};
use crate::minimax::game_state::{GameLaws, GameState};
use crate::minimax::values::{best_of_first, game_value, no_oracle, worst};
use vstd::prelude::*;

verus! {

/// The board seen from the other side: every cell holds what the cell seven
/// places on held.
pub open spec fn turned(pits: Seq<u32>) -> Seq<u32> {
    Seq::new(14, |i: int| pits[(i + 7) % 14])
}

impl MancalaGameState {
    /// The position with the two sides swapped and the other player to move.
    pub open spec fn swapped(self) -> MancalaGameState {
        MancalaGameState {
            pits: board_of(turned(self.pits@)),
            turn: !self.turn,
            game_over: self.game_over,
        }
    }
}

/// The cells of a board seen from the other side.
pub proof fn lemma_turned(pits: Seq<u32>)
    requires
        pits.len() == 14,
    ensures
        turned(pits).len() == 14,
        turned(pits)[0] == pits[7],
        turned(pits)[1] == pits[8],
        turned(pits)[2] == pits[9],
        turned(pits)[3] == pits[10],
        turned(pits)[4] == pits[11],
        turned(pits)[5] == pits[12],
        turned(pits)[6] == pits[13],
        turned(pits)[7] == pits[0],
        turned(pits)[8] == pits[1],
        turned(pits)[9] == pits[2],
        turned(pits)[10] == pits[3],
        turned(pits)[11] == pits[4],
        turned(pits)[12] == pits[5],
        turned(pits)[13] == pits[6],
{
}

/// A board seen from the other side and back is the board itself.
pub proof fn lemma_turned_twice(pits: Seq<u32>)
    requires
        pits.len() == 14,
    ensures
        turned(turned(pits)) == pits,
{
    lemma_turned(pits);
    lemma_turned(turned(pits));
    assert forall|i: int| 0 <= i < 14 implies turned(turned(pits))[i] == pits[i] by {
        if i == 0 {
        } else if i == 1 {
        } else if i == 2 {
        } else if i == 3 {
        } else if i == 4 {
        } else if i == 5 {
        } else if i == 6 {
        } else if i == 7 {
        } else if i == 8 {
        } else if i == 9 {
        } else if i == 10 {
        } else if i == 11 {
        } else if i == 12 {
        } else {
        }
    }
    assert(turned(turned(pits)) =~= pits);
}

/// A board seen from the other side holds the same stones.
pub proof fn lemma_turned_stones(pits: Seq<u32>)
    requires
        pits.len() == 14,
    ensures
        board_stones(turned(pits)) == board_stones(pits),
{
    lemma_turned(pits);
    reveal(board_stones);
}

/// The pits of a position with the sides swapped, counted from the first pit
/// of the player then to move, hold what they held.
pub proof fn lemma_swapped_counts(state: MancalaGameState)
    ensures
        normal_counts(state.swapped()) == normal_counts(state),
{
    lemma_board_of(turned(state.pits@));
    lemma_turned(state.pits@);
    let other = state.swapped();
    assert forall|k: int| 0 <= k < 12 implies normal_counts(other)[k] == normal_counts(state)[k] by {
        if k == 0 {
        } else if k == 1 {
        } else if k == 2 {
        } else if k == 3 {
        } else if k == 4 {
        } else if k == 5 {
        } else if k == 6 {
        } else if k == 7 {
        } else if k == 8 {
        } else if k == 9 {
        } else if k == 10 {
        } else {
        }
    }
    assert(normal_counts(other) =~= normal_counts(state));
}

/// What swapping the sides does to a position: the cells move seven places,
/// the stones stay on the board, and the pits, counted from the first pit of
/// the player to move, hold what they held.
pub proof fn lemma_swapped(state: MancalaGameState)
    ensures
        state.swapped().pits@ == turned(state.pits@),
        state.swapped().swapped() == state,
        board_stones(state.swapped().pits@) == board_stones(state.pits@),
        state.swapped().stones_in_play() == state.stones_in_play(),
        state.swapped().pits@[6] == state.pits@[13],
        state.swapped().pits@[13] == state.pits@[6],
        normal_counts(state.swapped()) == normal_counts(state),
        position_index(state.swapped()) == position_index(state),
{
    lemma_board_of(turned(state.pits@));
    let other = state.swapped();
    lemma_board_of(turned(other.pits@));
    lemma_turned_twice(state.pits@);
    assert(other.swapped().pits =~= state.pits);
    lemma_turned_stones(state.pits@);
    lemma_turned(state.pits@);
    lemma_swapped_counts(state);
}

/// Symmetry: the table gives the position with the sides swapped the value of
/// the position itself, negated.
pub proof fn lemma_lookup_symmetry(entries: Seq<TableEntry>, held: u32, state: MancalaGameState)
    requires
        board_stones(state.pits@) <= MancalaGameState::TOTAL_STONES,
    ensures
        lookup_in(entries, held, state.swapped()) == match lookup_in(entries, held, state) {
            Some(value) => Some((-value) as i32),
            None => None,
        },
{
    lemma_swapped(state);
    lemma_cells_in_game(state);
}

/// On a board of the game no cell holds more than the 48 stones.
pub proof fn lemma_cells_in_game(state: MancalaGameState)
    requires
        board_stones(state.pits@) <= MancalaGameState::TOTAL_STONES,
    ensures
        state.pits@[6] <= 48,
        state.pits@[13] <= 48,
        0 <= state.stones_in_play() <= 48,
{
    reveal(board_stones);
}

/// The cell seven places on: the cell of the other side that corresponds to
/// `cell`.
pub open spec fn across(cell: int) -> int {
    (cell + 7) % 14
}

/// A sowing seen from the other side is the sowing of the board seen from the
/// other side: the cell `i` receives what the cell across receives there.
pub proof fn lemma_turned_sown_cell(pits: Seq<u32>, source: int, skipped: int, i: int)
    requires
        pits.len() == 14,
        skipped == 6 || skipped == 13,
        0 <= source < 14,
        source != 6,
        source != 13,
        board_stones(pits) <= MancalaGameState::TOTAL_STONES,
        0 <= i < 14,
    ensures
        sown(turned(pits), across(source), across(skipped))[across(i)] == sown(
            pits,
            source,
            skipped,
        )[i],
{
    lemma_turned(pits);
    lemma_turned_stones(pits);
    lemma_sown_cell(pits, source, skipped, i);
    lemma_sown_cell(turned(pits), across(source), across(skipped), across(i));
    assert(turned(pits)[across(i)] == pits[i]);
    assert(turned(pits)[across(source)] == pits[source]);
    if i != skipped {
        assert(ring_distance(across(source), across(i), across(skipped)) == ring_distance(
            source,
            i,
            skipped,
        ));
    }
}

/// A sowing commutes with the change of sides.
pub proof fn lemma_turned_sown(pits: Seq<u32>, source: int, skipped: int)
    requires
        pits.len() == 14,
        skipped == 6 || skipped == 13,
        0 <= source < 14,
        source != 6,
        source != 13,
        board_stones(pits) <= MancalaGameState::TOTAL_STONES,
    ensures
        sown(turned(pits), across(source), across(skipped)) == turned(sown(pits, source, skipped)),
{
    let there = sown(turned(pits), across(source), across(skipped));
    let here = sown(pits, source, skipped);
    lemma_turned_stones(pits);
    lemma_sown_cell(pits, source, skipped, 0);
    lemma_sown_cell(turned(pits), across(source), across(skipped), 0);
    assert forall|j: int| 0 <= j < 14 implies #[trigger] there[j] == here[across(j)] by {
        lemma_turned_sown_cell(pits, source, skipped, across(j));
    }
    assert(there =~= turned(here));
}

/// Where the last seed lands depends on the stones that the full laps leave
/// over.
pub proof fn lemma_last_after_laps(source: int, stones: int, skipped: int)
    requires
        0 <= stones,
    ensures
        last_sown(source, stones, skipped) == last_sown(source, stones % 13, skipped),
{
    let place = crate::mancala::game_state::ring_index(source, skipped);
    assert((place + stones) % 13 == (place + stones % 13) % 13) by {
        vstd::arithmetic::div_mod::lemma_add_mod_noop_right(place, stones, 13);
    }
}

/// The last of fewer than thirteen seeds, seen from the other side, lands
/// across from where it lands.
proof fn lemma_turned_last_short(source: int, part: int, skipped: int)
    requires
        skipped == 6 || skipped == 13,
        0 <= source < 14,
        source != 6,
        source != 13,
        0 <= part < 13,
    ensures
        last_sown(across(source), part, across(skipped)) == across(
            last_sown(source, part, skipped),
        ),
        0 <= last_sown(source, part, skipped) < 14,
        last_sown(source, part, skipped) != skipped,
{
    let place = crate::mancala::game_state::ring_index(source, skipped);
    let there = crate::mancala::game_state::ring_index(across(source), across(skipped));
    assert(0 <= place < 13);
    assert(0 <= there < 13);
    assert((place + part) % 13 == if place + part >= 13 {
        place + part - 13
    } else {
        place + part
    });
    assert((there + part) % 13 == if there + part >= 13 {
        there + part - 13
    } else {
        there + part
    });
}

/// The last seed of a sowing seen from the other side lands across from
/// where it lands.
pub proof fn lemma_turned_last(source: int, stones: int, skipped: int)
    requires
        skipped == 6 || skipped == 13,
        0 <= source < 14,
        source != 6,
        source != 13,
        0 <= stones,
    ensures
        last_sown(across(source), stones, across(skipped)) == across(
            last_sown(source, stones, skipped),
        ),
        0 <= last_sown(source, stones, skipped) < 14,
        last_sown(source, stones, skipped) != skipped,
{
    lemma_last_after_laps(source, stones, skipped);
    lemma_last_after_laps(across(source), stones, across(skipped));
    lemma_turned_last_short(source, stones % 13, skipped);
}

/// The end-of-game test commutes with the change of sides.
pub proof fn lemma_swapped_settled(state: MancalaGameState)
    requires
        board_stones(state.pits@) <= MancalaGameState::TOTAL_STONES,
    ensures
        state.swapped().settled() == state.settled().swapped(),
{
    lemma_swapped(state);
    lemma_turned(state.pits@);
    let other = state.swapped();
    lemma_cells_in_game(state);
    lemma_cells_in_game(other);
    lemma_board_of(swept(state.pits@, 7, 13));
    lemma_board_of(swept(state.pits@, 0, 6));
    lemma_board_of(swept(other.pits@, 7, 13));
    lemma_board_of(swept(other.pits@, 0, 6));
    lemma_board_of(turned(state.settled().pits@));
    lemma_turned(state.settled().pits@);
    let lhs = other.settled().pits@;
    let rhs = state.settled().swapped().pits@;
    assert forall|i: int| 0 <= i < 14 implies lhs[i] == rhs[i] by {
        reveal(board_stones);
        if i == 0 {
        } else if i == 1 {
        } else if i == 2 {
        } else if i == 3 {
        } else if i == 4 {
        } else if i == 5 {
        } else if i == 6 {
        } else if i == 7 {
        } else if i == 8 {
        } else if i == 9 {
        } else if i == 10 {
        } else if i == 11 {
        } else if i == 12 {
        } else {
        }
    }
    assert(lhs =~= rhs);
    assert(other.settled().pits =~= state.settled().swapped().pits);
}

/// A move does to the board seen from the other side what it does to the
/// board, seen from the other side.
pub proof fn lemma_swapped_board_after(
    state: MancalaGameState,
    source: int,
    players_store: int,
    opponents_store: int,
)
    requires
        board_stones(state.pits@) <= MancalaGameState::TOTAL_STONES,
        own_pit(source, players_store, opponents_store),
    ensures
        own_pit(across(source), across(players_store), across(opponents_store)),
        board_after(
            state.swapped(),
            across(source),
            across(players_store),
            across(opponents_store),
        ) == turned(board_after(state, source, players_store, opponents_store)),
{
    lemma_swapped(state);
    lemma_turned(state.pits@);
    let other = state.swapped();
    let here = sown(state.pits@, source, opponents_store);
    let there = sown(other.pits@, across(source), across(opponents_store));
    lemma_turned_sown(state.pits@, source, opponents_store);
    lemma_turned_last(source, state.pits@[source] as int, opponents_store);
    assert(other.pits@[across(source)] == state.pits@[source]);
    let last = last_sown(source, state.pits@[source] as int, opponents_store);
    lemma_sown_stones(state.pits@, source, opponents_store);
    lemma_turned(here);
    assert(there[across(last)] == here[last]);
    if last != players_store && players_store - 6 <= last < players_store && here[last] == 1 {
        let taken = captured(here, last, players_store);
        let taken_there = captured(there, across(last), across(players_store));
        lemma_two_cells(here, 12 - last, players_store);
        assert(12 - across(last) == across(12 - last));
        assert forall|j: int| 0 <= j < 14 implies #[trigger] taken_there[j] == taken[across(j)] by {
            assert(there[j] == here[across(j)]);
            if j == across(players_store) {
                assert(across(j) == players_store);
            } else if j == across(12 - last) {
                assert(across(j) == 12 - last);
            } else {
                assert(across(j) != players_store);
                assert(across(j) != 12 - last);
            }
        }
        assert(taken_there =~= turned(taken));
    }
}

/// Swapping the sides commutes with a move: the move from the cell across
/// leads to the position that the move leads to, with the sides swapped.
pub proof fn lemma_swapped_child(state: MancalaGameState, source: int)
    requires
        board_stones(state.pits@) <= MancalaGameState::TOTAL_STONES,
        state.first_pit() <= source < state.first_pit() + 6,
    ensures
        state.swapped().child(across(source)) == state.child(source).swapped(),
{
    let own = state.own_store();
    let other = state.other_store();
    let there = state.swapped();
    lemma_swapped(state);
    lemma_turned(state.pits@);
    lemma_swapped_board_after(state, source, own, other);
    lemma_after_move(state, source, own, other);
    lemma_after_move(there, across(source), across(own), across(other));
    lemma_turned_last(source, state.pits@[source] as int, other);
    let board = board_after(state, source, own, other);
    let last = last_sown(source, state.pits@[source] as int, other);
    let moved = MancalaGameState {
        pits: board_of(board),
        turn: if last == own {
            state.turn
        } else {
            !state.turn
        },
        game_over: state.game_over,
    };
    lemma_board_after(state, source, own, other);
    lemma_board_of(turned(board));
    lemma_board_of(turned(moved.pits@));
    let moved_there = MancalaGameState {
        pits: board_of(board_after(there, across(source), across(own), across(other))),
        turn: !moved.turn,
        game_over: moved.game_over,
    };
    assert(moved_there.pits =~= moved.swapped().pits);
    assert(moved_there == moved.swapped());
    lemma_swapped_settled(moved);
    lemma_sown_cell(state.pits@, source, other, last);
    lemma_turned_sown_cell(state.pits@, source, other, last);
    assert(there.pits@[across(source)] == state.pits@[source]);
}

/// A pit of the position with the sides swapped holds what the pit across
/// holds, and earns an extra turn when that pit does.
pub proof fn lemma_swapped_pit(state: MancalaGameState, source: int)
    requires
        state.first_pit() <= source < state.first_pit() + 6,
    ensures
        state.swapped().first_pit() <= across(source) < state.swapped().first_pit() + 6,
        across(source) - state.swapped().first_pit() == source - state.first_pit(),
        state.swapped().pits@[across(source)] == state.pits@[source],
        state.swapped().earns_extra_turn(across(source)) == state.earns_extra_turn(source),
{
    lemma_swapped(state);
    lemma_turned(state.pits@);
    lemma_turned_last(source, state.pits@[source] as int, state.other_store());
    assert(state.swapped().pits@[across(source)] == state.pits@[source]);
    assert(state.swapped().other_store() == across(state.other_store()));
    assert(state.swapped().own_store() == across(state.own_store()));
    let last = last_sown(source, state.pits@[source] as int, state.other_store());
    assert(across(last) == across(state.own_store()) <==> last == state.own_store());
}

/// The moves of the position with the sides swapped are the moves of the
/// position, each from the cell across, in the same order.
pub proof fn lemma_swapped_moves(state: MancalaGameState, k: int, extra: bool)
    requires
        0 <= k <= 6,
    ensures
        state.swapped().moves_upto(k, extra).len() == state.moves_upto(k, extra).len(),
        forall|j: int|
            0 <= j < state.moves_upto(k, extra).len() ==> #[trigger] state.swapped().moves_upto(
                k,
                extra,
            )[j] == across(state.moves_upto(k, extra)[j] as int),
    decreases k,
{
    if k > 0 {
        lemma_swapped_moves(state, k - 1, extra);
        let there = state.swapped();
        let source = state.first_pit() + k - 1;
        lemma_swapped_pit(state, source);
        let earlier = state.moves_upto(k - 1, extra);
        let earlier_there = there.moves_upto(k - 1, extra);
        let all = state.moves_upto(k, extra);
        let all_there = there.moves_upto(k, extra);
        assert(there.first_pit() + k - 1 == across(source));
        let taken = state.pits@[source] > 0 && state.earns_extra_turn(source) == extra;
        assert(taken == (there.pits@[across(source)] > 0 && there.earns_extra_turn(across(source))
            == extra));
        if taken {
            assert(all == earlier.push(source as usize));
            assert(all_there == earlier_there.push(across(source) as usize));
        } else {
            assert(all == earlier);
            assert(all_there == earlier_there);
        }
        assert forall|j: int| 0 <= j < all.len() implies #[trigger] all_there[j] == across(
            all[j] as int,
        ) by {
            if j < earlier.len() {
                assert(all[j] == earlier[j]);
                assert(all_there[j] == earlier_there[j]);
            }
        }
    }
}

/// The successors of the position with the sides swapped are the successors
/// of the position, with the sides swapped.
pub proof fn lemma_swapped_successors(state: MancalaGameState)
    requires
        board_stones(state.pits@) <= MancalaGameState::TOTAL_STONES,
    ensures
        state.swapped().successors().len() == state.successors().len(),
        forall|i: int|
            0 <= i < state.successors().len() ==> #[trigger] state.swapped().successors()[i]
                == state.successors()[i].swapped(),
{
    lemma_swapped_moves(state, 6, true);
    lemma_swapped_moves(state, 6, false);
    state.lemma_moves_are_own(6, true);
    state.lemma_moves_are_own(6, false);
    assert forall|i: int| 0 <= i < state.successors().len() implies #[trigger] state.swapped().successors()[i]
        == state.successors()[i].swapped() by {
        let source = state.ordered_moves()[i] as int;
        lemma_swapped_child(state, source);
        assert(state.swapped().ordered_moves()[i] == across(source));
    }
}

/// A position of a game with the sides swapped is a position of a game, as far
/// from its end.
pub proof fn lemma_swapped_live(state: MancalaGameState)
    requires
        state.live(),
    ensures
        state.swapped().live(),
        state.swapped().horizon() == state.horizon(),
        state.swapped().score() == -state.score(),
{
    lemma_swapped(state);
    lemma_turned(state.pits@);
}

/// Symmetry of the game: the value of the position with the sides swapped is
/// the value of the position, negated.
pub proof fn lemma_swapped_value(state: MancalaGameState)
    requires
        state.live(),
    ensures
        game_value(state.swapped()) == -game_value(state),
    decreases state.horizon(), 1nat, 0nat,
{
    lemma_swapped_live(state);
    if !state.game_over {
        lemma_swapped_successors(state);
        lemma_live_successors(state);
        lemma_swapped_best(state, state.successors().len());
    }
}

/// The same of the best of the values of the first successors.
proof fn lemma_swapped_best(state: MancalaGameState, count: nat)
    requires
        state.live(),
        !state.game_over,
        1 <= count <= state.successors().len(),
    ensures
        best_of_first(no_oracle(), false, state.swapped(), None, count) == -best_of_first(
            no_oracle(),
            false,
            state,
            None,
            count,
        ),
    decreases state.horizon(), 0nat, count,
{
    let there = state.swapped();
    lemma_swapped_live(state);
    lemma_swapped_successors(state);
    lemma_live_successors(state);
    state.lemma_successor(count - 1);
    let child = state.successors()[count - 1];
    lemma_swapped_value(child);
    lemma_game_value_range(child);
    lemma_cells_in_game(child);
    if count > 1 {
        lemma_swapped_best(state, (count - 1) as nat);
    } else {
        assert(best_of_first(no_oracle::<MancalaGameState>(), false, state, None, 0) == worst(
            state.maximising(),
        ));
        assert(best_of_first(no_oracle::<MancalaGameState>(), false, there, None, 0) == worst(
            there.maximising(),
        ));
    }
}

} // verus!
