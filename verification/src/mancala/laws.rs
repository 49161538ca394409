use crate::mancala::game_state::{
    board_of, board_stones, captured, last_sown, lemma_board_of, lemma_one_cell,
    lemma_partly_sown_len, lemma_settled_keeps_stones, lemma_sow_start, lemma_sow_step,
    lemma_two_cells, lemma_update_stones, level_base, own_pit, partly_sown, ring_distance,
    ring_index, ring_pit, side_stones, side_weight, sown, swept, MancalaGameState, STONE_LIMIT,
};
use crate::minimax::game_state::{GameLaws, GameState};
use vstd::prelude::*;

verus! {

/// The stones on the board in the course of a sowing: those that have left the
/// source and have not been sown yet are missing.
pub proof fn lemma_partly_sown_stones(pits: Seq<u32>, source: int, skipped: int, seeds: int)
    requires
        pits.len() == 14,
        skipped == 6 || skipped == 13,
        0 <= source < 14,
        source != 6,
        source != 13,
        board_stones(pits) <= STONE_LIMIT,
        0 <= seeds <= pits[source],
    ensures
        board_stones(partly_sown(pits, source, skipped, seeds / 13, seeds % 13)) == board_stones(
            pits,
        ) - pits[source] + seeds,
    decreases seeds,
{
    if seeds == 0 {
        lemma_sow_start(pits, source, skipped);
        lemma_update_stones(pits, source, 0);
    } else {
        let sown_before = seeds - 1;
        let laps = sown_before / 13;
        let extra = sown_before % 13;
        lemma_partly_sown_stones(pits, source, skipped, sown_before);
        let next = ring_pit((ring_index(source, skipped) + extra + 1) % 13, skipped);
        assert(ring_distance(source, next, skipped) == extra + 1);
        lemma_sow_step(pits, source, skipped, laps, extra, next);
        let before = partly_sown(pits, source, skipped, laps, extra);
        lemma_partly_sown_len(pits, source, skipped, laps, extra);
        lemma_update_stones(before, next, (before[next] + 1) as u32);
        if extra + 1 == 13 {
            assert(seeds / 13 == laps + 1 && seeds % 13 == 0);
        } else {
            assert(seeds / 13 == laps && seeds % 13 == extra + 1);
        }
    }
}

/// Sowing moves stones and loses none.
pub proof fn lemma_sown_stones(pits: Seq<u32>, source: int, skipped: int)
    requires
        pits.len() == 14,
        skipped == 6 || skipped == 13,
        0 <= source < 14,
        source != 6,
        source != 13,
        board_stones(pits) <= STONE_LIMIT,
    ensures
        board_stones(sown(pits, source, skipped)) == board_stones(pits),
        sown(pits, source, skipped).len() == 14,
{
    lemma_partly_sown_stones(pits, source, skipped, pits[source] as int);
    reveal(partly_sown);
}

/// What a sowing does to the two stores: the other player's store is left
/// out, and the mover's store gains a stone for every lap and one more if the
/// last lap reaches it.
pub proof fn lemma_sown_stores(pits: Seq<u32>, source: int, players_store: int, opponents_store: int)
    requires
        pits.len() == 14,
        own_pit(source, players_store, opponents_store),
        board_stones(pits) <= STONE_LIMIT,
    ensures
        sown(pits, source, opponents_store)[opponents_store] == pits[opponents_store],
        sown(pits, source, opponents_store)[players_store] >= pits[players_store],
        pits[source] >= players_store - source ==> sown(
            pits,
            source,
            opponents_store,
        )[players_store] > pits[players_store],
        pits[source] < players_store - source ==> sown(
            pits,
            source,
            opponents_store,
        )[players_store] == pits[players_store],
{
    reveal(partly_sown);
    lemma_two_cells(pits, source, players_store);
    let stones = pits[source] as int;
    assert(ring_distance(source, players_store, opponents_store) == players_store - source);
    assert(stones / 13 + 1 <= stones || stones == 0);
}

/// A sowing that does not reach the mover's store: each of the pits that
/// follow the source gains a stone, as many pits as the source held stones,
/// and nothing else changes.
pub proof fn lemma_short_sowing(
    pits: Seq<u32>,
    source: int,
    players_store: int,
    opponents_store: int,
    i: int,
)
    requires
        pits.len() == 14,
        own_pit(source, players_store, opponents_store),
        board_stones(pits) <= STONE_LIMIT,
        pits[source] < players_store - source,
        0 <= i < 14,
    ensures
        sown(pits, source, opponents_store)[i] == (if i == source {
            0int
        } else if source < i <= source + pits[source] {
            pits[i] + 1
        } else {
            pits[i] as int
        }),
{
    reveal(partly_sown);
    lemma_one_cell(pits, i);
    if i != source {
        lemma_two_cells(pits, i, source);
    }
}

/// Between two levels of stones in play there is room for every weight that
/// the lower level can have.
pub proof fn lemma_level_gap(fewer: int, more: int)
    requires
        0 <= fewer < more,
    ensures
        level_base(fewer) + 6 * fewer < level_base(more),
        level_base(fewer) >= 0,
{
    assert(level_base(fewer) + 6 * fewer < level_base(more)) by (nonlinear_arith)
        requires
            0 <= fewer < more,
            level_base(fewer) == 3 * fewer * fewer - 2 * fewer,
            level_base(more) == 3 * more * more - 2 * more,
    {
        assert((more - 1 - fewer) * (3 * (more - 1 + fewer) + 4) >= 0);
        assert(3 * (more - 1) * (more - 1) + 4 * (more - 1) == 3 * more * more - 2 * more - 1);
        assert((more - 1 - fewer) * (3 * (more - 1 + fewer) + 4) == 3 * (more - 1) * (more - 1) + 4
            * (more - 1) - 3 * fewer * fewer - 4 * fewer);
    }
    assert(level_base(fewer) >= 0) by (nonlinear_arith)
        requires
            0 <= fewer,
            level_base(fewer) == 3 * fewer * fewer - 2 * fewer,
    {
        assert(fewer * (3 * fewer - 2) >= 0 || fewer == 0);
        assert(fewer * (3 * fewer - 2) == 3 * fewer * fewer - 2 * fewer);
    }
}

/// The board after the sowing of a move and the capture that may follow it.
pub open spec fn board_after(
    state: MancalaGameState,
    source: int,
    players_store: int,
    opponents_store: int,
) -> Seq<u32> {
    let sown_pits = sown(state.pits@, source, opponents_store);
    let last = last_sown(source, state.pits@[source] as int, opponents_store);
    if last != players_store && players_store - 6 <= last < players_store && sown_pits[last] == 1 {
        captured(sown_pits, last, players_store)
    } else {
        sown_pits
    }
}

/// What a move does to the board before the end-of-game test: stones are
/// moved and none is lost, the other player's store is left alone, and the
/// mover's store loses nothing.
pub proof fn lemma_board_after(
    state: MancalaGameState,
    source: int,
    players_store: int,
    opponents_store: int,
)
    requires
        state.within_limits(),
        own_pit(source, players_store, opponents_store),
    ensures
        board_after(state, source, players_store, opponents_store).len() == 14,
        board_stones(board_after(state, source, players_store, opponents_store)) == board_stones(
            state.pits@,
        ),
        board_after(state, source, players_store, opponents_store)[opponents_store]
            == state.pits@[opponents_store],
        board_after(state, source, players_store, opponents_store)[players_store]
            >= state.pits@[players_store],
        state.pits@[source] >= players_store - source ==> board_after(
            state,
            source,
            players_store,
            opponents_store,
        )[players_store] > state.pits@[players_store],
        board_after(state, source, players_store, opponents_store)[players_store]
            == state.pits@[players_store] ==> board_after(
            state,
            source,
            players_store,
            opponents_store,
        ) == sown(state.pits@, source, opponents_store),
{
    let sown_pits = sown(state.pits@, source, opponents_store);
    let last = last_sown(source, state.pits@[source] as int, opponents_store);
    lemma_sown_stones(state.pits@, source, opponents_store);
    lemma_sown_stores(state.pits@, source, players_store, opponents_store);
    if last != players_store && players_store - 6 <= last < players_store && sown_pits[last] == 1 {
        let opposite = 12 - last;
        lemma_two_cells(sown_pits, opposite, players_store);
        lemma_update_stones(sown_pits, opposite, 0);
        lemma_update_stones(
            sown_pits.update(opposite, 0),
            players_store,
            (sown_pits[players_store] + sown_pits[opposite]) as u32,
        );
        if captured(sown_pits, last, players_store)[players_store] == state.pits@[players_store] {
            assert(captured(sown_pits, last, players_store) =~= sown_pits);
        }
    }
}

/// The position that a move leads to, from the board that the move leaves.
pub proof fn lemma_after_move(
    state: MancalaGameState,
    source: int,
    players_store: int,
    opponents_store: int,
)
    requires
        state.within_limits(),
        own_pit(source, players_store, opponents_store),
    ensures
        ({
            let board = board_after(state, source, players_store, opponents_store);
            let last = last_sown(source, state.pits@[source] as int, opponents_store);
            let moved = MancalaGameState {
                pits: board_of(board),
                turn: if last == players_store {
                    state.turn
                } else {
                    !state.turn
                },
                game_over: state.game_over,
            };
            let after = state.after_move(source, players_store, opponents_store);
            &&& moved.pits@ == board
            &&& moved.within_limits()
            &&& after == moved || after == moved.settled()
            &&& after.within_limits()
            &&& board_stones(after.pits@) == board_stones(state.pits@)
        }),
{
    let board = board_after(state, source, players_store, opponents_store);
    lemma_board_after(state, source, players_store, opponents_store);
    lemma_board_of(board);
    let last = last_sown(source, state.pits@[source] as int, opponents_store);
    let moved = MancalaGameState {
        pits: board_of(board),
        turn: if last == players_store {
            state.turn
        } else {
            !state.turn
        },
        game_over: state.game_over,
    };
    lemma_settled_keeps_stones(moved);
}

/// A side's weight lies between its stones and six times its stones.
pub proof fn lemma_weight_bounds(pits: Seq<u32>, first: int)
    ensures
        side_stones(pits, first) <= side_weight(pits, first) <= 6 * side_stones(pits, first),
{
}

/// A sowing that does not reach the mover's store brings the mover's stones
/// nearer to it and leaves the other side as it was.
pub proof fn lemma_short_sowing_weight(
    pits: Seq<u32>,
    source: int,
    players_store: int,
    opponents_store: int,
)
    requires
        pits.len() == 14,
        own_pit(source, players_store, opponents_store),
        board_stones(pits) <= STONE_LIMIT,
        0 < pits[source] < players_store - source,
    ensures
        ({
            let after = sown(pits, source, opponents_store);
            &&& side_weight(after, players_store - 6) < side_weight(pits, players_store - 6)
            &&& side_weight(after, opponents_store - 6) == side_weight(pits, opponents_store - 6)
            &&& side_stones(after, 0) + side_stones(after, 7) == side_stones(pits, 0) + side_stones(
                pits,
                7,
            )
        }),
{
    let after = sown(pits, source, opponents_store);
    assert forall|i: int| 0 <= i < 14 implies #[trigger] after[i] == (if i == source {
        0int
    } else if source < i <= source + pits[source] {
        pits[i] + 1
    } else {
        pits[i] as int
    }) by {
        lemma_short_sowing(pits, source, players_store, opponents_store, i);
    }
    let first = players_store - 6;
    let other = opponents_store - 6;
    assert(after[other] == pits[other] && after[other + 1] == pits[other + 1] && after[other + 2]
        == pits[other + 2] && after[other + 3] == pits[other + 3] && after[other + 4] == pits[other
        + 4] && after[other + 5] == pits[other + 5]);
    let held = pits[source] as int;
    if source == first {
    } else if source == first + 1 {
    } else if source == first + 2 {
    } else if source == first + 3 {
    } else if source == first + 4 {
    } else {
    }
}

/// The end-of-game test leaves a position as it is or empties all pits.
pub proof fn lemma_settled_horizon(state: MancalaGameState)
    requires
        state.within_limits(),
    ensures
        state.settled() == state || state.settled().horizon() == 0,
{
    lemma_board_of(swept(state.pits@, 7, 13));
    lemma_board_of(swept(state.pits@, 0, 6));
    if state.settled() != state {
        assert(state.settled().stones_in_play() == 0);
        assert(level_base(0) == 0);
    }
}

/// A position with fewer stones in play is nearer to the end of the game,
/// wherever its stones lie.
pub proof fn lemma_fewer_stones_nearer(fewer: MancalaGameState, more: MancalaGameState)
    requires
        fewer.stones_in_play() < more.stones_in_play(),
    ensures
        fewer.horizon() < more.horizon(),
{
    lemma_weight_bounds(fewer.pits@, 0);
    lemma_weight_bounds(fewer.pits@, 7);
    lemma_weight_bounds(more.pits@, 0);
    lemma_weight_bounds(more.pits@, 7);
    lemma_level_gap(fewer.stones_in_play(), more.stones_in_play());
    lemma_level_gap(0, more.stones_in_play());
}

/// The stones in play are those of the board that are not in a store.
pub proof fn lemma_stones_in_play(state: MancalaGameState)
    ensures
        state.stones_in_play() == board_stones(state.pits@) - state.pits@[6] - state.pits@[13],
        state.stones_in_play() >= 0,
{
    reveal(board_stones);
}

/// Every move brings the end of the game nearer.
pub proof fn lemma_move_nears_end(state: MancalaGameState, source: int)
    requires
        state.within_limits(),
        state.first_pit() <= source < state.first_pit() + 6,
        state.pits@[source] > 0,
    ensures
        state.child(source).horizon() < state.horizon(),
{
    let own = state.own_store();
    let other = state.other_store();
    let board = board_after(state, source, own, other);
    let last = last_sown(source, state.pits@[source] as int, other);
    let moved = MancalaGameState {
        pits: board_of(board),
        turn: if last == own {
            state.turn
        } else {
            !state.turn
        },
        game_over: state.game_over,
    };
    let after = state.child(source);
    lemma_after_move(state, source, own, other);
    lemma_board_after(state, source, own, other);
    lemma_stones_in_play(state);
    lemma_stones_in_play(moved);
    lemma_one_cell(state.pits@, source);
    assert(state.stones_in_play() >= state.pits@[source]) by {
        lemma_source_in_play(state, source);
    }
    if board[own] > state.pits@[own] {
        lemma_fewer_stones_nearer(moved, state);
    } else {
        lemma_short_sowing_weight(state.pits@, source, own, other);
        assert(moved.pits@ == sown(state.pits@, source, other));
        assert(moved.stones_in_play() == state.stones_in_play());
        lemma_level_gap(state.stones_in_play(), state.stones_in_play() + 1);
        lemma_weight_bounds(moved.pits@, 0);
        lemma_weight_bounds(moved.pits@, 7);
        lemma_weight_bounds(state.pits@, 0);
        lemma_weight_bounds(state.pits@, 7);
        assert(moved.horizon() < state.horizon());
    }
    lemma_settled_horizon(moved);
    lemma_level_gap(0, state.stones_in_play());
    lemma_weight_bounds(state.pits@, 0);
    lemma_weight_bounds(state.pits@, 7);
}

/// The stones of a pit of the player to move are in play.
pub proof fn lemma_source_in_play(state: MancalaGameState, source: int)
    requires
        state.first_pit() <= source < state.first_pit() + 6,
    ensures
        state.stones_in_play() >= state.pits@[source],
{
}

impl MancalaGameState {
    /// The position is one that play can lead to, as far as the end of the
    /// game goes: when the game is over, no stone is left in a pit.
    pub open spec fn proper(&self) -> bool {
        &&& self.within_limits()
        &&& self.game_over ==> self.stones_in_play() == 0
    }

    /// The moves of `moves` can be played one after the other from this
    /// position: each starts from a pit of the player then to move that holds
    /// stones.
    pub open spec fn playable(&self, moves: Seq<int>) -> bool
        decreases moves.len(),
    {
        moves.len() > 0 ==> {
            &&& self.first_pit() <= moves[0] < self.first_pit() + 6
            &&& self.pits@[moves[0]] > 0
            &&& self.child(moves[0]).playable(moves.drop_first())
        }
    }

    /// The position after the moves of `moves` were played one after the other.
    pub open spec fn played(&self, moves: Seq<int>) -> MancalaGameState
        decreases moves.len(),
    {
        if moves.len() == 0 {
            *self
        } else {
            self.child(moves[0]).played(moves.drop_first())
        }
    }
}

/// The opening position holds 48 stones and is proper.
pub proof fn lemma_opening_stones(state: MancalaGameState)
    requires
        state.pits@ == seq![4u32, 4, 4, 4, 4, 4, 0, 4, 4, 4, 4, 4, 4, 0],
        !state.game_over,
    ensures
        board_stones(state.pits@) == 48,
        state.proper(),
{
    reveal(board_stones);
}

/// A move keeps the stones of the board, and leads from a proper position to a
/// proper position.
pub proof fn lemma_child(state: MancalaGameState, source: int)
    requires
        state.within_limits(),
        state.first_pit() <= source < state.first_pit() + 6,
    ensures
        board_stones(state.child(source).pits@) == board_stones(state.pits@),
        state.child(source).within_limits(),
        state.proper() && state.pits@[source] > 0 ==> state.child(source).proper(),
{
    let own = state.own_store();
    let other = state.other_store();
    lemma_after_move(state, source, own, other);
    let board = board_after(state, source, own, other);
    let last = last_sown(source, state.pits@[source] as int, other);
    let moved = MancalaGameState {
        pits: board_of(board),
        turn: if last == own {
            state.turn
        } else {
            !state.turn
        },
        game_over: state.game_over,
    };
    lemma_board_of(swept(moved.pits@, 7, 13));
    lemma_board_of(swept(moved.pits@, 0, 6));
}

/// Stone conservation: however long a play, the board holds the stones that
/// it held at the start, and a play from a proper position leads to a proper
/// position.
pub proof fn lemma_play_keeps_stones(state: MancalaGameState, moves: Seq<int>)
    requires
        state.within_limits(),
        state.playable(moves),
    ensures
        board_stones(state.played(moves).pits@) == board_stones(state.pits@),
        state.proper() ==> state.played(moves).proper(),
    decreases moves.len(),
{
    if moves.len() > 0 {
        lemma_child(state, moves[0]);
        lemma_play_keeps_stones(state.child(moves[0]), moves.drop_first());
    }
}

/// Every play from the opening position keeps the 48 stones on the board.
pub proof fn lemma_play_from_opening(state: MancalaGameState, moves: Seq<int>)
    requires
        state.pits@ == seq![4u32, 4, 4, 4, 4, 4, 0, 4, 4, 4, 4, 4, 4, 0],
        !state.game_over,
        state.playable(moves),
    ensures
        board_stones(state.played(moves).pits@) == 48,
{
    lemma_opening_stones(state);
    lemma_play_keeps_stones(state, moves);
}

/// The legal moves are the pits of the player to move that hold stones: there
/// is none exactly when that side is empty.
pub proof fn lemma_legal_moves(state: MancalaGameState, k: int)
    requires
        0 <= k <= 6,
    ensures
        state.legal_moves_upto(k).len() == 0 <==> crate::mancala::game_state::side_upto(
            state.pits@,
            state.first_pit(),
            k,
        ) == 0,
        crate::mancala::game_state::side_upto(state.pits@, state.first_pit(), k) >= 0,
    decreases k,
{
    if k > 0 {
        lemma_legal_moves(state, k - 1);
    }
}

/// A position has no successor exactly when the player to move has no stone
/// to play; in a proper position that is so, in particular, when the game is
/// over.
pub proof fn lemma_no_successors(state: MancalaGameState)
    ensures
        state.successors().len() == 0 <==> side_stones(state.pits@, state.first_pit()) == 0,
        state.proper() ==> (state.successors().len() == 0 <==> state.game_over || side_stones(
            state.pits@,
            state.first_pit(),
        ) == 0),
{
    state.lemma_moves_len(6, true);
    lemma_legal_moves(state, 6);
    crate::mancala::game_state::lemma_side_upto(state.pits@, state.first_pit());
}

/// Every successor of a position comes from one pit of the player to move:
/// the pit held stones, the successor is the position after the move from
/// it, and the board holds as many stones as before.
pub proof fn lemma_successor_origin(state: MancalaGameState, i: int)
    requires
        state.within_limits(),
        0 <= i < state.successors().len(),
    ensures
        ({
            let source = state.ordered_moves()[i] as int;
            &&& state.first_pit() <= source < state.first_pit() + 6
            &&& state.pits@[source] > 0
            &&& state.successors()[i] == state.child(source)
            &&& board_stones(state.successors()[i].pits@) == board_stones(state.pits@)
            &&& state.proper() ==> state.successors()[i].proper()
        }),
{
    state.lemma_moves_are_own(6, true);
    state.lemma_moves_are_own(6, false);
    let source = state.ordered_moves()[i] as int;
    lemma_child(state, source);
}

/// Zero sum: when the game is over in a proper position, the two stores hold
/// all the stones of the board, and the score, the difference of the stores,
/// lies between the board's stones taken negatively and positively.
pub proof fn lemma_terminal_score(state: MancalaGameState)
    requires
        state.proper(),
        state.game_over,
    ensures
        state.score() == state.pits@[6] - state.pits@[13],
        state.pits@[6] + state.pits@[13] == board_stones(state.pits@),
        -board_stones(state.pits@) <= state.score() <= board_stones(state.pits@),
{
    reveal(board_stones);
}

impl GameLaws for MancalaGameState {
    proof fn lemma_score_in_range(&self) {
        lemma_one_cell(self.pits@, 6);
        lemma_one_cell(self.pits@, 13);
    }

    proof fn lemma_successor(&self, i: int) {
        self.lemma_moves_are_own(6, true);
        self.lemma_moves_are_own(6, false);
        let source = self.ordered_moves()[i] as int;
        lemma_after_move(*self, source, self.own_store(), self.other_store());
        lemma_move_nears_end(*self, source);
    }
}

} // verus!
