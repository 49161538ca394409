use crate::minimax::game_state::GameState;
use vstd::prelude::*;

verus! {

/// A Kalah position: fourteen cells, the side to move, and whether the game
/// has ended.
///
/// Cells 0 to 5 are the first player's pits, cell 6 is the first player's
/// store, cells 7 to 12 are the second player's pits and cell 13 is the second
/// player's store. `turn` is true when the first player, who maximises, is to
/// move.
#[derive(Copy, Clone, Debug, Hash, Eq, PartialEq)]
pub struct MancalaGameState {
    pub pits: [u32; 14],
    pub turn: bool,
    pub game_over: bool,
}

/// The most stones a board may hold for the game's arithmetic to stay exact.
pub const STONE_LIMIT: u32 = 0x7fff_ffff;

/// The stones in the six pits that start at cell `first`.
pub open spec fn side_stones(pits: Seq<u32>, first: int) -> int {
    pits[first] + pits[first + 1] + pits[first + 2] + pits[first + 3] + pits[first + 4] + pits[first
        + 5]
}

/// The stones in all fourteen cells.
#[verifier::opaque]
pub open spec fn board_stones(pits: Seq<u32>) -> int {
    side_stones(pits, 0) + pits[6] + side_stones(pits, 7) + pits[13]
}

/// The array whose first `k` cells are those of `values`, the others zero.
pub open spec fn board_filled(values: Seq<u32>, k: nat) -> [u32; 14]
    decreases k,
{
    if k == 0 {
        vstd::array::spec_array_fill_for_copy_type::<u32, 14>(0u32)
    } else {
        vstd::array::spec_array_update(
            board_filled(values, (k - 1) as nat),
            k - 1,
            values[k - 1],
        )
    }
}

/// The board that holds the fourteen values of `values`.
pub open spec fn board_of(values: Seq<u32>) -> [u32; 14] {
    board_filled(values, 14)
}

/// The cells of a partly filled board.
pub proof fn lemma_board_filled(values: Seq<u32>, k: nat)
    requires
        k <= 14,
    ensures
        forall|i: int| 0 <= i < k ==> #[trigger] board_filled(values, k)@[i] == values[i],
        forall|i: int| k <= i < 14 ==> #[trigger] board_filled(values, k)@[i] == 0,
    decreases k,
{
    broadcast use vstd::array::group_array_axioms;

    if k > 0 {
        lemma_board_filled(values, (k - 1) as nat);
        let before = board_filled(values, (k - 1) as nat);
        assert(board_filled(values, k)@ == before@.update(k - 1, values[k - 1]));
    }
}

/// `board_of` is the inverse of the view on sequences of fourteen values.
pub proof fn lemma_board_of(values: Seq<u32>)
    requires
        values.len() == 14,
    ensures
        board_of(values)@ == values,
{
    lemma_board_filled(values, 14);
    assert(board_of(values)@ =~= values);
}

/// The board after the six pits that start at `first` were swept into `store`.
pub open spec fn swept(pits: Seq<u32>, first: int, store: int) -> Seq<u32> {
    Seq::new(
        14,
        |i: int|
            if first <= i < first + 6 {
                0u32
            } else if i == store {
                (pits[store] + side_stones(pits, first)) as u32
            } else {
                pits[i]
            },
    )
}

/// The place of `pit` on the ring of thirteen cells that a sowing visits: all
/// cells but `skipped`, the store of the player who does not move.
pub open spec fn ring_index(pit: int, skipped: int) -> int {
    if pit < skipped {
        pit
    } else {
        pit - 1
    }
}

/// The cell at place `index` of the ring that leaves out `skipped`.
pub open spec fn ring_pit(index: int, skipped: int) -> int {
    if index < skipped {
        index
    } else {
        index + 1
    }
}

/// The number of steps, from 1 to 13, that a sowing from `from` takes to reach
/// `to`; a full lap of 13 to come back to `from` itself.
pub open spec fn ring_distance(from: int, to: int, skipped: int) -> int {
    let ahead = ring_index(to, skipped) - ring_index(from, skipped);
    if ahead > 0 {
        ahead
    } else {
        ahead + 13
    }
}

/// The board in the course of a sowing from `source`, when every cell of the
/// ring has received `laps` seeds and the first `extra` cells after the source
/// one more.
#[verifier::opaque]
pub open spec fn partly_sown(
    pits: Seq<u32>,
    source: int,
    skipped: int,
    laps: int,
    extra: int,
) -> Seq<u32> {
    Seq::new(
        14,
        |i: int|
            if i == skipped {
                pits[i]
            } else {
                ((if i == source {
                    0int
                } else {
                    pits[i] as int
                }) + laps + (if ring_distance(source, i, skipped) <= extra {
                    1int
                } else {
                    0int
                })) as u32
            },
    )
}

/// The cell that receives the last of `stones` seeds sown from `source`; the
/// source itself when there is nothing to sow.
pub open spec fn last_sown(source: int, stones: int, skipped: int) -> int {
    ring_pit((ring_index(source, skipped) + stones) % 13, skipped)
}

/// The board after the pit `source` was emptied and its stones sown one by one
/// into the cells that follow it, leaving out `skipped`: one seed to every cell
/// of the ring for each full lap, and one more to the cells that the last lap
/// reaches.
pub open spec fn sown(pits: Seq<u32>, source: int, skipped: int) -> Seq<u32> {
    partly_sown(pits, source, skipped, pits[source] as int / 13, pits[source] as int % 13)
}

/// The board after the stones opposite `last` were captured into `store`.
pub open spec fn captured(pits: Seq<u32>, last: int, store: int) -> Seq<u32> {
    pits.update(12 - last, 0u32).update(store, (pits[store] + pits[12 - last]) as u32)
}

/// `source` is one of the six pits of the player whose store is
/// `players_store`, and `opponents_store` is the other player's store.
pub open spec fn own_pit(source: int, players_store: int, opponents_store: int) -> bool {
    ||| players_store == 6 && opponents_store == 13 && 0 <= source < 6
    ||| players_store == 13 && opponents_store == 6 && 7 <= source < 13
}

impl MancalaGameState {
    /// The pits of each player.
    pub const PITS_PER_SIDE: usize = 6;

    /// The pits of both players together.
    pub const PITS_NO_STORES: usize = 12;

    /// The cell of the first player's store.
    pub const PLAYER_1_STORE: usize = 6;

    /// The cell of the second player's store.
    pub const PLAYER_2_STORE: usize = 13;

    /// The stones of the game: four in each pit at the opening.
    pub const TOTAL_STONES: u32 = 48;

    /// The board holds no more stones than the game's arithmetic can count.
    pub open spec fn within_limits(&self) -> bool {
        board_stones(self.pits@) <= STONE_LIMIT
    }

    /// The position after the end-of-game test: when one side's pits are all
    /// empty, the other side's stones go to that other side's store and the
    /// game is over.
    pub open spec fn settled(self) -> MancalaGameState {
        if side_stones(self.pits@, 0) == 0 {
            MancalaGameState {
                pits: board_of(swept(self.pits@, 7, 13)),
                turn: self.turn,
                game_over: true,
            }
        } else if side_stones(self.pits@, 7) == 0 {
            MancalaGameState {
                pits: board_of(swept(self.pits@, 0, 6)),
                turn: self.turn,
                game_over: true,
            }
        } else {
            self
        }
    }

    /// The position after the player whose store is `players_store` has moved
    /// from `source`.
    ///
    /// The pit is emptied and sown. A last seed in the mover's store keeps the
    /// turn; otherwise the turn passes, and a last seed that lies alone in one
    /// of the mover's pits captures the stones of the opposite pit into the
    /// mover's store. The end-of-game test follows a capture and every move
    /// from the pit next to a store.
    pub open spec fn after_move(
        self,
        source: int,
        players_store: int,
        opponents_store: int,
    ) -> MancalaGameState {
        let sown_pits = sown(self.pits@, source, opponents_store);
        let last = last_sown(source, self.pits@[source] as int, opponents_store);
        let keeps_turn = last == players_store;
        let captures = !keeps_turn && players_store - 6 <= last < players_store && sown_pits[last]
            == 1;
        let moved = MancalaGameState {
            pits: board_of(
                if captures {
                    captured(sown_pits, last, players_store)
                } else {
                    sown_pits
                },
            ),
            turn: if keeps_turn {
                self.turn
            } else {
                !self.turn
            },
            game_over: self.game_over,
        };
        if captures || source == 5 || source == 12 {
            moved.settled()
        } else {
            moved
        }
    }

    /// The first of the six pits of the player to move.
    pub open spec fn first_pit(&self) -> int {
        if self.turn {
            0
        } else {
            7
        }
    }

    /// The store of the player to move.
    pub open spec fn own_store(&self) -> int {
        if self.turn {
            6
        } else {
            13
        }
    }

    /// The store of the player who is not to move.
    pub open spec fn other_store(&self) -> int {
        if self.turn {
            13
        } else {
            6
        }
    }

    /// The position after the player to move has played from `source`.
    pub open spec fn child(&self, source: int) -> MancalaGameState {
        self.after_move(source, self.own_store(), self.other_store())
    }

    /// The pit `source` holds stones, and the last of them lands in the
    /// mover's own store.
    pub open spec fn earns_extra_turn(&self, source: int) -> bool {
        self.pits@[source] > 0 && last_sown(
            source,
            self.pits@[source] as int,
            self.other_store(),
        ) == self.own_store()
    }

    /// The non-empty pits among the first `k` pits of the player to move, in
    /// board order.
    pub open spec fn legal_moves_upto(&self, k: int) -> Seq<usize>
        decreases k,
    {
        if k <= 0 {
            Seq::empty()
        } else {
            let source = self.first_pit() + k - 1;
            let earlier = self.legal_moves_upto(k - 1);
            if self.pits@[source] > 0 {
                earlier.push(source as usize)
            } else {
                earlier
            }
        }
    }

    /// The legal moves of the player to move, in board order.
    pub open spec fn legal_moves(&self) -> Seq<usize> {
        self.legal_moves_upto(6)
    }

    /// Those legal moves among the first `k` pits of the player to move that
    /// earn an extra turn (`extra`) or that do not (`!extra`), in board order.
    pub open spec fn moves_upto(&self, k: int, extra: bool) -> Seq<usize>
        decreases k,
    {
        if k <= 0 {
            Seq::empty()
        } else {
            let source = self.first_pit() + k - 1;
            let earlier = self.moves_upto(k - 1, extra);
            if self.pits@[source] > 0 && self.earns_extra_turn(source) == extra {
                earlier.push(source as usize)
            } else {
                earlier
            }
        }
    }

    /// The legal moves in the order in which the search tries them: first
    /// those that earn an extra turn, then the others, each group in board
    /// order.
    pub open spec fn ordered_moves(&self) -> Seq<usize> {
        self.moves_upto(6, true) + self.moves_upto(6, false)
    }

    /// The positions that `moves` lead to, in the same order.
    pub open spec fn children_by(&self, moves: Seq<usize>) -> Seq<MancalaGameState> {
        Seq::new(moves.len(), |i: int| self.child(moves[i] as int))
    }

    /// The value that files the first `k` cells in a table.
    pub open spec fn hash_upto(&self, k: int) -> int
        decreases k,
    {
        if k <= 0 {
            0
        } else {
            (self.hash_upto(k - 1) * 31 + self.pits@[k - 1]) % 1_000_000_007
        }
    }

    /// The moves among the first `k` pits of the player to move, split into
    /// those that earn an extra turn and the others.
    fn collect_moves(&self, extra: bool, moves: &mut [usize; 6], count: usize) -> (total: usize)
        requires
            count <= 6,
            !extra ==> old(moves)@.subrange(0, count as int) == self.moves_upto(6, true),
            extra ==> count == 0,
        ensures
            total <= 6,
            extra ==> final(moves)@.subrange(0, total as int) == self.moves_upto(6, true),
            !extra ==> final(moves)@.subrange(0, total as int) == self.ordered_moves(),
    {
        let pit_offset: usize = if self.turn {
            0
        } else {
            7
        };
        let players_store: usize = if self.turn {
            6
        } else {
            13
        };
        let mut total = count;
        let ghost prefix = moves@.subrange(0, count as int);
        proof {
            self.lemma_moves_len(6, true);
        }
        for player_move in 0..6usize
            invariant
                count <= 6,
                pit_offset == self.first_pit(),
                players_store == self.own_store(),
                prefix.len() == count,
                extra ==> count == 0,
                !extra ==> prefix == self.moves_upto(6, true),
                self.moves_upto(6, true).len() + self.moves_upto(6, false).len() <= 6,
                total == count + self.moves_upto(player_move as int, extra).len(),
                total <= 6,
                moves@.subrange(0, total as int) == prefix + self.moves_upto(
                    player_move as int,
                    extra,
                ),
        {
            let source = pit_offset + player_move;
            proof {
                self.lemma_extra_turn(source as int);
                self.lemma_moves_monotone(player_move as int + 1, extra);
            }
            if self.pits[source] > 0 && ((self.pits[source] as usize) % 13 == players_store
                - source) == extra {
                let ghost before = moves@;
                moves[total] = source;
                total += 1;
                assert(moves@.subrange(0, total as int) =~= before.subrange(0, total - 1).push(
                    source,
                ));
            }
        }
        total
    }

    /// The number of moves found among the first `k` pits does not exceed `k`,
    /// and every legal move is of exactly one of the two kinds.
    pub proof fn lemma_moves_len(&self, k: int, extra: bool)
        requires
            0 <= k <= 6,
        ensures
            self.moves_upto(k, extra).len() <= k,
            self.moves_upto(k, true).len() + self.moves_upto(k, false).len() == self.legal_moves_upto(
                k,
            ).len(),
            self.legal_moves_upto(k).len() <= k,
        decreases k,
    {
        if k > 0 {
            self.lemma_moves_len(k - 1, extra);
            self.lemma_moves_len(k - 1, !extra);
        }
    }

    /// Looking at more pits finds no fewer moves.
    pub proof fn lemma_moves_monotone(&self, k: int, extra: bool)
        requires
            0 <= k <= 6,
        ensures
            self.moves_upto(k, extra).len() <= self.moves_upto(6, extra).len(),
        decreases 6 - k,
    {
        if k < 6 {
            self.lemma_moves_monotone(k + 1, extra);
        }
    }

    /// The last seed of a move lands in the mover's store exactly when the
    /// stones of the pit, counted in laps of thirteen, reach as far as the
    /// store.
    pub proof fn lemma_extra_turn(&self, source: int)
        requires
            self.first_pit() <= source < self.first_pit() + 6,
        ensures
            last_sown(source, self.pits@[source] as int, self.other_store()) == self.own_store()
                <==> self.pits@[source] as int % 13 == self.own_store() - source,
    {
    }

    /// Empties the pit `player_move`, sows its stones and returns the cell of
    /// the last seed.
    fn move_stones(&mut self, player_move: usize, opponents_store: usize) -> (final_pit: usize)
        requires
            old(self).within_limits(),
            player_move < 14,
            opponents_store == 6 || opponents_store == 13,
            player_move != 6,
            player_move != 13,
        ensures
            final(self).pits@ == sown(old(self).pits@, player_move as int, opponents_store as int),
            final(self).turn == old(self).turn,
            final(self).game_over == old(self).game_over,
            final_pit == last_sown(
                player_move as int,
                old(self).pits@[player_move as int] as int,
                opponents_store as int,
            ),
            board_stones(final(self).pits@) == board_stones(old(self).pits@),
    {
        let number_of_stones: u32 = self.pits[player_move];
        self.pits[player_move] = 0;
        let mut current_pit: usize = player_move;
        let mut sown_count: u32 = 0;
        let ghost mut laps: int = 0;
        let ghost mut extra: int = 0;
        let ghost source = player_move as int;
        let ghost skipped = opponents_store as int;
        proof {
            lemma_sow_start(old(self).pits@, source, skipped);
            lemma_update_stones(old(self).pits@, source, 0);
        }
        while sown_count < number_of_stones
            invariant
                skipped == 6 || skipped == 13,
                skipped == opponents_store,
                0 <= source < 14,
                source != 6,
                source != 13,
                old(self).within_limits(),
                number_of_stones == old(self).pits@[source],
                sown_count <= number_of_stones,
                self.turn == old(self).turn,
                self.game_over == old(self).game_over,
                current_pit < 14,
                current_pit != skipped,
                laps >= 0,
                0 <= extra < 13,
                sown_count == 13 * laps + extra,
                extra == 0 ==> current_pit == source,
                extra > 0 ==> ring_distance(source, current_pit as int, skipped) == extra,
                board_stones(self.pits@) + (number_of_stones - sown_count) == board_stones(
                    old(self).pits@,
                ),
                self.pits@ == partly_sown(old(self).pits@, source, skipped, laps, extra),
            decreases number_of_stones - sown_count,
        {
            let ghost before = self.pits@;
            proof {
                lemma_following_pit(source, current_pit as int, skipped, extra);
            }
            current_pit = (current_pit + 1) % 14;
            if current_pit == opponents_store {
                current_pit = (current_pit + 1) % 14;
            }
            proof {
                lemma_sow_step(old(self).pits@, source, skipped, laps, extra, current_pit as int);
                lemma_update_stones(
                    before,
                    current_pit as int,
                    (before[current_pit as int] + 1) as u32,
                );
            }
            self.pits[current_pit] += 1;
            sown_count += 1;
            proof {
                if extra + 1 == 13 {
                    laps = laps + 1;
                    extra = 0;
                } else {
                    extra = extra + 1;
                }
                assert(self.pits@ == before.update(
                    current_pit as int,
                    (before[current_pit as int] + 1) as u32,
                ));
            }
        }
        proof {
            assert(laps == number_of_stones as int / 13);
            assert(extra == number_of_stones as int % 13);
            assert((ring_index(source, skipped) + number_of_stones) % 13 == (if ring_index(
                source,
                skipped,
            ) + extra >= 13 {
                ring_index(source, skipped) + extra - 13
            } else {
                ring_index(source, skipped) + extra
            }));
        }
        current_pit
    }

    /// Plays the move from `player_move` for the player whose store is
    /// `players_store`.
    pub fn make_move(&mut self, player_move: usize, players_store: usize, opponents_store: usize)
        requires
            old(self).within_limits(),
            own_pit(player_move as int, players_store as int, opponents_store as int),
        ensures
            *final(self) == old(self).after_move(
                player_move as int,
                players_store as int,
                opponents_store as int,
            ),
            board_stones(final(self).pits@) == board_stones(old(self).pits@),
    {
        let final_pit = self.move_stones(player_move, opponents_store);
        let ghost sown_pits = self.pits@;
        let mut capture_occurred = false;
        if final_pit != players_store {
            self.turn = !self.turn;
            if final_pit < players_store && final_pit >= players_store - 6 && self.pits[final_pit]
                == 1 {
                capture_occurred = true;
                let opposite_pit = 12 - final_pit;
                let stones_to_capture = self.pits[opposite_pit];
                proof {
                    lemma_two_cells(sown_pits, opposite_pit as int, players_store as int);
                    lemma_update_stones(sown_pits, opposite_pit as int, 0);
                    lemma_update_stones(
                        sown_pits.update(opposite_pit as int, 0),
                        players_store as int,
                        (sown_pits[players_store as int] + stones_to_capture) as u32,
                    );
                }
                self.pits[opposite_pit] = 0;
                self.pits[players_store] += stones_to_capture;
                assert(self.pits@ =~= captured(sown_pits, final_pit as int, players_store as int));
            }
        }
        proof {
            lemma_board_of(self.pits@);
            assert(self.pits =~= board_of(self.pits@));
        }
        if capture_occurred || player_move == 5 || player_move == 12 {
            proof {
                lemma_settled_keeps_stones(*self);
            }
            self.handle_game_over();
        }
    }

    /// An empty board with the first player to move.
    pub fn new() -> (state: MancalaGameState)
        ensures
            state.pits@ == Seq::new(14, |i: int| 0u32),
            state.turn,
            !state.game_over,
    {
        let state = MancalaGameState { pits: [0;14], turn: true, game_over: false };
        assert(state.pits@ =~= Seq::new(14, |i: int| 0u32));
        state
    }

    /// The opening position: four stones in each pit, the stores empty, the
    /// first player to move.
    pub open spec fn opening() -> MancalaGameState {
        MancalaGameState {
            pits: board_of(seq![4u32, 4, 4, 4, 4, 4, 0, 4, 4, 4, 4, 4, 4, 0]),
            turn: true,
            game_over: false,
        }
    }

    /// The opening position: four stones in each pit, the stores empty, the
    /// first player to move.
    pub fn default() -> (state: MancalaGameState)
        ensures
            state == Self::opening(),
            state.pits@ == seq![4u32, 4, 4, 4, 4, 4, 0, 4, 4, 4, 4, 4, 4, 0],
            state.turn,
            !state.game_over,
            board_stones(state.pits@) == Self::TOTAL_STONES,
    {
        let state = MancalaGameState {
            pits: [4, 4, 4, 4, 4, 4, 0, 4, 4, 4, 4, 4, 4, 0],
            turn: true,
            game_over: false,
        };
        proof {
            assert(state.pits@ =~= seq![4u32, 4, 4, 4, 4, 4, 0, 4, 4, 4, 4, 4, 4, 0]);
            lemma_board_of(seq![4u32, 4, 4, 4, 4, 4, 0, 4, 4, 4, 4, 4, 4, 0]);
            assert(state.pits =~= Self::opening().pits);
            reveal(board_stones);
        }
        state
    }

    /// Applies the end-of-game test to the position.
    pub fn handle_game_over(&mut self)
        requires
            old(self).within_limits(),
        ensures
            *final(self) == old(self).settled(),
    {
        proof {
            lemma_side_upto(self.pits@, 0);
            lemma_side_upto(self.pits@, 7);
        }
        let mut player_one_stones: u32 = 0;
        for i in 0..6usize
            invariant
                self == old(self),
                self.within_limits(),
                player_one_stones == side_upto(self.pits@, 0, i as int),
        {
            proof {
                lemma_side_upto(self.pits@, 0);
                assert(side_upto(self.pits@, 0, i + 1) <= side_stones(self.pits@, 0));
                reveal(board_stones);
            }
            player_one_stones += self.pits[i];
        }
        let mut player_two_stones: u32 = 0;
        for i in 7..13usize
            invariant
                self == old(self),
                self.within_limits(),
                player_two_stones == side_upto(self.pits@, 7, i - 7),
        {
            proof {
                lemma_side_upto(self.pits@, 7);
                assert(side_upto(self.pits@, 7, i - 7 + 1) <= side_stones(self.pits@, 7));
                reveal(board_stones);
            }
            player_two_stones += self.pits[i];
        }
        proof {
            reveal(board_stones);
        }
        if player_one_stones == 0 {
            self.pits[13] += player_two_stones;
            for i in 7..13usize
                invariant
                    self.turn == old(self).turn,
                    forall|j: int| 7 <= j < i ==> self.pits@[j] == 0,
                    forall|j: int| 0 <= j < 7 || i <= j < 13 ==> self.pits@[j] == old(self).pits@[j],
                    self.pits@[13] == old(self).pits@[13] + side_stones(old(self).pits@, 7),
            {
                self.pits[i] = 0;
            }
            self.game_over = true;
            proof {
                lemma_board_of(swept(old(self).pits@, 7, 13));
                assert(self.pits@ =~= swept(old(self).pits@, 7, 13));
                assert(self.pits =~= board_of(swept(old(self).pits@, 7, 13)));
            }
        } else if player_two_stones == 0 {
            self.pits[6] += player_one_stones;
            for i in 0..6usize
                invariant
                    self.turn == old(self).turn,
                    forall|j: int| 0 <= j < i ==> self.pits@[j] == 0,
                    forall|j: int| i <= j < 6 || 7 <= j < 14 ==> self.pits@[j] == old(self).pits@[j],
                    self.pits@[6] == old(self).pits@[6] + side_stones(old(self).pits@, 0),
            {
                self.pits[i] = 0;
            }
            self.game_over = true;
            proof {
                lemma_board_of(swept(old(self).pits@, 0, 6));
                assert(self.pits@ =~= swept(old(self).pits@, 0, 6));
                assert(self.pits =~= board_of(swept(old(self).pits@, 0, 6)));
            }
        }
    }

    /// One empty buffer for each ply from the root down to `max_depth`.
    pub fn generate_children_memory(max_depth: u32) -> (memory: Vec<Vec<MancalaGameState>>)
        requires
            max_depth < u32::MAX,
        ensures
            memory@.len() == max_depth + 1,
            forall|i: int| 0 <= i < memory@.len() ==> (#[trigger] memory@[i])@.len() == 0,
    {
        let mut memory: Vec<Vec<MancalaGameState>> = Vec::new();
        let mut ply: u32 = 0;
        while ply <= max_depth
            invariant
                max_depth < u32::MAX,
                ply <= max_depth + 1,
                memory@.len() == ply,
                forall|i: int| 0 <= i < memory@.len() ==> (#[trigger] memory@[i])@.len() == 0,
            decreases max_depth + 1 - ply,
        {
            memory.push(Vec::with_capacity(6));
            ply += 1;
        }
        memory
    }

    /// The successors in board order, without the ordering that the search
    /// uses.
    pub fn get_children_naive(&self) -> (children: Vec<MancalaGameState>)
        requires
            self.within_limits(),
        ensures
            children@ == self.children_by(self.legal_moves()),
    {
        let mut children: Vec<MancalaGameState> = Vec::with_capacity(6);
        let pit_offset: usize = if self.turn {
            0
        } else {
            7
        };
        let players_store: usize = if self.turn {
            6
        } else {
            13
        };
        let opponents_store: usize = if self.turn {
            13
        } else {
            6
        };
        for i in 0..6usize
            invariant
                self.within_limits(),
                pit_offset == self.first_pit(),
                players_store == self.own_store(),
                opponents_store == self.other_store(),
                children@ == self.children_by(self.legal_moves_upto(i as int)),
        {
            let player_move = pit_offset + i;
            if self.pits[player_move] > 0 {
                let mut child = *self;
                child.make_move(player_move, players_store, opponents_store);
                children.push(child);
                assert(children@ =~= self.children_by(self.legal_moves_upto(i + 1)));
            }
        }
        children
    }

    /// The pits from which the player to move can play, in board order.
    pub fn get_valid_moves(&self) -> (valid_moves: Vec<usize>)
        ensures
            valid_moves@ == self.legal_moves(),
    {
        let mut valid_moves: Vec<usize> = Vec::with_capacity(6);
        let pit_offset: usize = if self.turn {
            0
        } else {
            7
        };
        for i in 0..6usize
            invariant
                pit_offset == self.first_pit(),
                valid_moves@ == self.legal_moves_upto(i as int),
        {
            let player_move = pit_offset + i;
            if self.pits[player_move] > 0 {
                valid_moves.push(player_move);
            }
        }
        valid_moves
    }

    /// The stones that are neither in the one store nor in the other.
    pub open spec fn stones_in_play(&self) -> int {
        side_stones(self.pits@, 0) + side_stones(self.pits@, 7)
    }
}

/// The distance of a side's stones from that side's store, summed over the
/// stones of the six pits that start at `first`.
pub open spec fn side_weight(pits: Seq<u32>, first: int) -> int {
    6 * pits[first] + 5 * pits[first + 1] + 4 * pits[first + 2] + 3 * pits[first + 3] + 2 * pits[first
        + 4] + pits[first + 5]
}

/// More plies than any game can last in which fewer than `stones` stones are
/// in play.
pub open spec fn level_base(stones: int) -> int {
    3 * stones * stones - 2 * stones
}

impl GameState<MancalaGameState> for MancalaGameState {
    open spec fn valid(&self) -> bool {
        self.within_limits()
    }

    open spec fn successors(&self) -> Seq<MancalaGameState> {
        self.children_by(self.ordered_moves())
    }

    open spec fn finished(&self) -> bool {
        self.game_over
    }

    open spec fn score(&self) -> int {
        self.pits@[6] - self.pits@[13]
    }

    open spec fn maximising(&self) -> bool {
        self.turn
    }

    /// Every move either takes a stone out of play or, leaving all stones in
    /// play, brings the mover's stones nearer to the mover's store.
    open spec fn horizon(&self) -> nat {
        (level_base(self.stones_in_play()) + side_weight(self.pits@, 0) + side_weight(
            self.pits@,
            7,
        )) as nat
    }

    open spec fn spec_hash_code(&self) -> u64 {
        (self.hash_upto(14) * 4 + (if self.turn {
            2int
        } else {
            0int
        }) + (if self.game_over {
            1int
        } else {
            0int
        })) as u64
    }

    fn get_children<'a>(&self, children_cache: &'a mut Vec<MancalaGameState>) -> (children: &'a Vec<
        MancalaGameState,
    >) {
        children_cache.clear();
        let players_store: usize = if self.turn {
            6
        } else {
            13
        };
        let opponents_store: usize = if self.turn {
            13
        } else {
            6
        };
        let mut moves = [0usize;6];
        let extra_turns = self.collect_moves(true, &mut moves, 0);
        let move_count = self.collect_moves(false, &mut moves, extra_turns);
        let ghost ordered = self.ordered_moves();
        proof {
            self.lemma_moves_are_own(6, true);
            self.lemma_moves_are_own(6, false);
        }
        for i in 0..move_count
            invariant
                self.within_limits(),
                move_count <= 6,
                players_store == self.own_store(),
                opponents_store == self.other_store(),
                ordered == self.ordered_moves(),
                moves@.subrange(0, move_count as int) == ordered,
                forall|j: int|
                    0 <= j < ordered.len() ==> self.first_pit() <= #[trigger] ordered[j]
                        < self.first_pit() + 6,
                children_cache@ == self.children_by(ordered.subrange(0, i as int)),
        {
            let player_move = moves[i];
            assert(player_move == moves@.subrange(0, move_count as int)[i as int]);
            let mut child = *self;
            child.make_move(player_move, players_store, opponents_store);
            children_cache.push(child);
            assert(children_cache@ =~= self.children_by(ordered.subrange(0, i + 1)));
        }
        assert(ordered.subrange(0, move_count as int) =~= ordered);
        children_cache
    }

    fn get_children_cache(&self) -> (cache: Vec<MancalaGameState>) {
        Vec::with_capacity(6)
    }

    fn is_game_over(&self) -> (over: bool) {
        self.game_over
    }

    fn heuristic(&self) -> (value: i32) {
        proof {
            lemma_one_cell(self.pits@, 6);
            lemma_one_cell(self.pits@, 13);
        }
        self.pits[6] as i32 - self.pits[13] as i32
    }

    fn is_maximising_player(&self) -> (maximising: bool) {
        self.turn
    }

    fn hash_code(&self) -> (code: u64) {
        let mut code: u64 = 0;
        for i in 0..14usize
            invariant
                code == self.hash_upto(i as int),
                code < 1_000_000_007,
        {
            code = (code * 31 + self.pits[i] as u64) % 1_000_000_007;
        }
        code * 4 + (if self.turn {
            2
        } else {
            0
        }) + (if self.game_over {
            1
        } else {
            0
        })
    }

    fn same_state(&self, other: &Self) -> (same: bool) {
        if self.turn != other.turn || self.game_over != other.game_over {
            return false;
        }
        for i in 0..14usize
            invariant
                self.turn == other.turn,
                self.game_over == other.game_over,
                forall|j: int| 0 <= j < i ==> self.pits@[j] == other.pits@[j],
        {
            if self.pits[i] != other.pits[i] {
                return false;
            }
        }
        assert(self.pits =~= other.pits);
        true
    }
}

impl MancalaGameState {
    /// Every legal move starts from a pit of the player to move that holds
    /// stones.
    pub proof fn lemma_legal_are_own(&self, k: int)
        requires
            0 <= k <= 6,
        ensures
            self.legal_moves_upto(k).len() <= k,
            forall|j: int|
                0 <= j < self.legal_moves_upto(k).len() ==> {
                    &&& self.first_pit() <= #[trigger] self.legal_moves_upto(k)[j]
                        < self.first_pit() + k
                    &&& self.pits@[self.legal_moves_upto(k)[j] as int] > 0
                },
        decreases k,
    {
        if k > 0 {
            self.lemma_legal_are_own(k - 1);
            let earlier = self.legal_moves_upto(k - 1);
            let source = self.first_pit() + k - 1;
            assert forall|j: int| 0 <= j < self.legal_moves_upto(k).len() implies {
                &&& self.first_pit() <= #[trigger] self.legal_moves_upto(k)[j] < self.first_pit()
                    + k
                &&& self.pits@[self.legal_moves_upto(k)[j] as int] > 0
            } by {
                if j < earlier.len() {
                    assert(self.legal_moves_upto(k)[j] == earlier[j]);
                } else {
                    assert(self.legal_moves_upto(k)[j] == source as usize);
                }
            }
        }
    }

    /// Every move that the search tries starts from a pit of the player to move.
    pub proof fn lemma_moves_are_own(&self, k: int, extra: bool)
        requires
            0 <= k <= 6,
        ensures
            forall|j: int|
                0 <= j < self.moves_upto(k, extra).len() ==> {
                    &&& self.first_pit() <= #[trigger] self.moves_upto(k, extra)[j]
                        < self.first_pit() + k
                    &&& self.pits@[self.moves_upto(k, extra)[j] as int] > 0
                },
        decreases k,
    {
        if k > 0 {
            self.lemma_moves_are_own(k - 1, extra);
            let earlier = self.moves_upto(k - 1, extra);
            let source = self.first_pit() + k - 1;
            assert forall|j: int| 0 <= j < self.moves_upto(k, extra).len() implies {
                &&& self.first_pit() <= #[trigger] self.moves_upto(k, extra)[j] < self.first_pit()
                    + k
                &&& self.pits@[self.moves_upto(k, extra)[j] as int] > 0
            } by {
                if j < earlier.len() {
                    assert(self.moves_upto(k, extra)[j] == earlier[j]);
                } else {
                    assert(self.moves_upto(k, extra)[j] == source as usize);
                }
            }
        }
    }
}

/// Changing one cell changes the stones on the board by as much.
pub proof fn lemma_update_stones(pits: Seq<u32>, cell: int, value: u32)
    requires
        pits.len() == 14,
        0 <= cell < 14,
    ensures
        board_stones(pits.update(cell, value)) == board_stones(pits) - pits[cell] + value,
{
    reveal(board_stones);
}

/// The cell that a sowing reaches after `pit`.
pub open spec fn following_pit(pit: int, skipped: int) -> int {
    let next = (pit + 1) % 14;
    if next == skipped {
        (next + 1) % 14
    } else {
        next
    }
}

/// The cell after the one that a sowing has reached in `extra` steps is one
/// step further from the source.
pub proof fn lemma_following_pit(source: int, pit: int, skipped: int, extra: int)
    requires
        skipped == 6 || skipped == 13,
        0 <= source < 14,
        source != 6,
        source != 13,
        0 <= pit < 14,
        pit != skipped,
        0 <= extra < 13,
        extra == 0 ==> pit == source,
        extra > 0 ==> ring_distance(source, pit, skipped) == extra,
    ensures
        0 <= following_pit(pit, skipped) < 14,
        following_pit(pit, skipped) != skipped,
        ring_distance(source, following_pit(pit, skipped), skipped) == extra + 1,
{
}

/// A board in the course of a sowing has its fourteen cells.
pub proof fn lemma_partly_sown_len(pits: Seq<u32>, source: int, skipped: int, laps: int, extra: int)
    ensures
        partly_sown(pits, source, skipped, laps, extra).len() == 14,
{
    reveal(partly_sown);
}

/// Before the first seed, the source is empty and nothing else has changed.
pub proof fn lemma_sow_start(pits: Seq<u32>, source: int, skipped: int)
    requires
        pits.len() == 14,
        0 <= source < 14,
        skipped == 6 || skipped == 13,
        source != skipped,
    ensures
        partly_sown(pits, source, skipped, 0, 0) == pits.update(source, 0u32),
{
    reveal(partly_sown);
    assert(partly_sown(pits, source, skipped, 0, 0) =~= pits.update(source, 0u32));
}

/// No cell holds more stones than the board.
pub proof fn lemma_one_cell(pits: Seq<u32>, i: int)
    requires
        pits.len() == 14,
        0 <= i < 14,
    ensures
        pits[i] <= board_stones(pits),
{
    reveal(board_stones);
}

/// No two cells together hold more stones than the board.
pub proof fn lemma_two_cells(pits: Seq<u32>, i: int, j: int)
    requires
        pits.len() == 14,
        0 <= i < 14,
        0 <= j < 14,
        i != j,
    ensures
        pits[i] + pits[j] <= board_stones(pits),
{
    lemma_update_stones(pits, i, 0);
    lemma_one_cell(pits.update(i, 0), j);
}

/// What one more seed does to the cell `i`: the cell one step beyond the
/// `extra` cells that the current lap has reached receives it, the others stay.
proof fn lemma_sow_cell(
    pits: Seq<u32>,
    source: int,
    skipped: int,
    laps: int,
    extra: int,
    next: int,
    i: int,
)
    requires
        pits.len() == 14,
        skipped == 6 || skipped == 13,
        0 <= source < 14,
        source != 6,
        source != 13,
        laps >= 0,
        0 <= extra < 13,
        13 * laps + extra < pits[source],
        board_stones(pits) <= STONE_LIMIT,
        0 <= next < 14,
        next != skipped,
        ring_distance(source, next, skipped) == extra + 1,
        0 <= i < 14,
    ensures
        ({
            let before = partly_sown(pits, source, skipped, laps, extra);
            let after = if extra + 1 == 13 {
                partly_sown(pits, source, skipped, laps + 1, 0)
            } else {
                partly_sown(pits, source, skipped, laps, extra + 1)
            };
            &&& before[i] < u32::MAX
            &&& after[i] == if i == next {
                (before[i] + 1) as u32
            } else {
                before[i]
            }
        }),
{
    reveal(partly_sown);
    lemma_one_cell(pits, i);
    lemma_one_cell(pits, source);
    if i != source {
        lemma_two_cells(pits, i, source);
    }
    if i != skipped {
        assert(ring_distance(source, i, skipped) == extra + 1 <==> i == next);
        assert(laps + 1 <= pits[source]);
    }
}

/// One more seed: the board changes in the cell `next` alone, which gains one
/// stone.
pub proof fn lemma_sow_step(
    pits: Seq<u32>,
    source: int,
    skipped: int,
    laps: int,
    extra: int,
    next: int,
)
    requires
        pits.len() == 14,
        skipped == 6 || skipped == 13,
        0 <= source < 14,
        source != 6,
        source != 13,
        laps >= 0,
        0 <= extra < 13,
        13 * laps + extra < pits[source],
        board_stones(pits) <= STONE_LIMIT,
        0 <= next < 14,
        next != skipped,
        ring_distance(source, next, skipped) == extra + 1,
    ensures
        ({
            let before = partly_sown(pits, source, skipped, laps, extra);
            let after = if extra + 1 == 13 {
                partly_sown(pits, source, skipped, laps + 1, 0)
            } else {
                partly_sown(pits, source, skipped, laps, extra + 1)
            };
            &&& before[next] < u32::MAX
            &&& after == before.update(next, (before[next] + 1) as u32)
        }),
{
    let before = partly_sown(pits, source, skipped, laps, extra);
    let after = if extra + 1 == 13 {
        partly_sown(pits, source, skipped, laps + 1, 0)
    } else {
        partly_sown(pits, source, skipped, laps, extra + 1)
    };
    reveal(partly_sown);
    lemma_sow_cell(pits, source, skipped, laps, extra, next, next);
    assert forall|i: int| 0 <= i < 14 implies #[trigger] after[i] == before.update(
        next,
        (before[next] + 1) as u32,
    )[i] by {
        lemma_sow_cell(pits, source, skipped, laps, extra, next, i);
    }
    assert(after =~= before.update(next, (before[next] + 1) as u32));
}

/// The end-of-game test moves stones and loses none.
pub proof fn lemma_settled_keeps_stones(state: MancalaGameState)
    requires
        state.within_limits(),
    ensures
        board_stones(state.settled().pits@) == board_stones(state.pits@),
        state.settled().within_limits(),
{
    reveal(board_stones);
    lemma_board_of(swept(state.pits@, 7, 13));
    lemma_board_of(swept(state.pits@, 0, 6));
}

/// Summing a side pit by pit gives its stones, and no prefix holds more.
pub proof fn lemma_side_upto(pits: Seq<u32>, first: int)
    ensures
        side_upto(pits, first, 6) == side_stones(pits, first),
        forall|k: int| 0 <= k <= 6 ==> 0 <= #[trigger] side_upto(pits, first, k) <= side_stones(pits, first),
{
    reveal_with_fuel(side_upto, 7);
    assert forall|k: int| 0 <= k <= 6 implies 0 <= #[trigger] side_upto(pits, first, k)
        <= side_stones(pits, first) by {
        if k == 0 {
        } else if k == 1 {
        } else if k == 2 {
        } else if k == 3 {
        } else if k == 4 {
        } else if k == 5 {
        } else {
        }
    }
}

/// The stones in the first `k` of the six pits that start at cell `first`.
pub open spec fn side_upto(pits: Seq<u32>, first: int, k: int) -> int
    decreases k,
{
    if k <= 0 {
        0
    } else {
        side_upto(pits, first, k - 1) + pits[first + k - 1]
    }
}

} // verus!
