use crate::mancala::counting::{
    lemma_ways_grows, num_game_states, num_game_states_full_board,
    total_num_game_states_full_board, ways, ways_below,
};
use crate::mancala::game_state::{board_stones, lemma_settled_keeps_stones, MancalaGameState};
use crate::mancala::laws::lemma_successor_origin;
use crate::mancala::perfect_hash::{
    board_counts, index_terms, lemma_index_range, lemma_later_terms, lemma_position_injective,
    lemma_tail_sums, lemma_tail_update, lemma_terms_after_empty, lemma_terms_agree,
    lemma_zero_tail, normal_counts, normal_pit, position_index, tail_sum,
};
use crate::minimax::endgames_table::{oracle_of, EndgamesLookup, EndgamesTable};
use crate::minimax::game_state::GameState;
use crate::minimax::solver::Solver;
use crate::minimax::values::{pruned_with, Oracle};
use vstd::prelude::*;

verus! {

/// The value of one position of the endgame table.
#[derive(Clone, Copy, Debug, PartialEq, Eq)]
pub struct TableEntry {
    pub evaluation: i8,
}

/// The values of all positions with at most `max_stones` stones in the pits,
/// indexed by a perfect hash of the stones in the twelve pits.
///
/// `cache[s][p]` is the number of ways to spread `s` stones over `p` pits. The
/// table holds the positions level by level, a level being the positions with
/// one number of stones in the pits; `current_stones` is the last level that
/// it holds. `stones_in_play` is the number of stones on the boards that the
/// table is asked about: while the table is built, the stones of the level
/// under work; afterwards, those of the game.
#[derive(Clone, Debug, PartialEq, Eq)]
pub struct MancalaEndgamesTable {
    pub cache: Vec<[usize; 14]>,
    pub table: Vec<TableEntry>,
    pub max_stones: u32,
    pub current_stones: u32,
    pub stones_in_play: u32,
}

/// What a table with the entries `entries`, which holds the levels up to
/// `held`, gives for `state`: none for a board with more stones in the pits
/// than the table holds; else the entry at the position's index, taken for the
/// player to move, plus the difference of the stores.
pub open spec fn lookup_in(entries: Seq<TableEntry>, held: u32, state: MancalaGameState) -> Option<
    i32,
> {
    if state.stones_in_play() > held {
        None
    } else {
        let entry = entries[position_index(state)].evaluation as int;
        Some(
            ((if state.turn {
                entry
            } else {
                -entry
            }) + state.pits@[6] - state.pits@[13]) as i32,
        )
    }
}

/// What a table with the entries `entries` and the levels up to `held` knows,
/// as the search sees it.
pub open spec fn oracle_in(entries: Seq<TableEntry>, held: u32) -> Oracle<MancalaGameState> {
    |state: MancalaGameState|
        match lookup_in(entries, held, state) {
            Some(value) => Some(value as int),
            None => None,
        }
}

/// A position that the table has an entry for: the first player is to move,
/// the game is not marked as over, the stores are empty and the pits hold
/// `stones` stones.
pub open spec fn entry_position(state: MancalaGameState, stones: nat) -> bool {
    &&& state.turn
    &&& !state.game_over
    &&& state.pits@[6] == 0
    &&& state.pits@[13] == 0
    &&& state.stones_in_play() == stones
}

/// The value that the build finds for a position with stones in its pits:
/// after the end-of-game test, alpha-beta search in the widest window plays
/// every line until the game is over or the levels below know the position.
pub open spec fn built_value(entries: Seq<TableEntry>, state: MancalaGameState) -> int {
    pruned_with(
        oracle_in(entries, (state.stones_in_play() - 1) as u32),
        false,
        state.settled(),
        None,
        i32::MIN as int,
        i32::MAX as int,
    )
}

/// The value as a table entry: what the entry's eight bits keep of it.
pub open spec fn to_entry(value: int) -> i8 {
    #[verifier::truncate]
    (value as i8)
}

/// The entries of the levels up to `levels` are what the build gives them.
pub open spec fn built_upto(entries: Seq<TableEntry>, levels: nat) -> bool {
    &&& entries[0].evaluation == 0
    &&& forall|state: MancalaGameState|
        1 <= state.stones_in_play() <= levels && entry_position(
            state,
            state.stones_in_play() as nat,
        ) ==> (#[trigger] entries[position_index(state)]).evaluation == to_entry(built_value(entries, state))
}

/// What the cache holds for `stones` stones and `pits` pits: the number of
/// ways to spread the stones over the pits, and zero in the place of no pit,
/// which nothing reads.
pub open spec fn cached(stones: int, pits: int) -> int {
    if pits == 0 {
        0
    } else {
        ways(stones as nat, pits as nat) as int
    }
}

impl MancalaEndgamesTable {
    /// The cache holds the number of ways for all stones up to `max_stones`
    /// and all pits from one up to thirteen, and zero in the place of no pit;
    /// and the table's size can be counted.
    pub open spec fn cache_ready(&self) -> bool {
        &&& self.max_stones <= MancalaGameState::TOTAL_STONES
        &&& ways(self.max_stones as nat, 13) <= usize::MAX
        &&& self.cache@.len() == self.max_stones + 1
        &&& forall|s: int, p: int|
            0 <= s <= self.max_stones && 0 <= p <= 13 ==> (#[trigger] self.cache@[s]@[p])
                == cached(s, p)
    }

    /// The table holds no level yet.
    pub open spec fn is_blank(&self) -> bool {
        &&& self.cache_ready()
        &&& self.table@.len() == 0
    }

    /// The table holds the levels up to `current_stones`, and answers for
    /// boards of `stones_in_play` stones.
    pub open spec fn is_ready(&self) -> bool {
        &&& self.cache_ready()
        &&& self.current_stones <= self.max_stones
        &&& self.stones_in_play <= MancalaGameState::TOTAL_STONES
        &&& self.table@.len() == ways(self.current_stones as nat, 13)
    }

    /// The value that the table gives for `state`: none for a board with more
    /// stones in the pits than the table holds; else the entry at the
    /// position's index, taken for the player to move, plus the difference of
    /// the stores.
    pub open spec fn value_of(&self, state: MancalaGameState) -> Option<i32> {
        lookup_in(self.table@, self.current_stones, state)
    }

    /// The entries of the table are what the build gives them: the first is
    /// zero, and the entry of every position with stones in its pits is the
    /// value that the search finds for it.
    pub open spec fn is_built(&self) -> bool {
        built_upto(self.table@, self.current_stones as nat)
    }

    /// The number of positions that a table for up to `max_stones` stones
    /// holds, if the table can be made on this machine: the stones are no more
    /// than those of the game, and the positions can be counted.
    pub fn table_size(max_stones: u32) -> (size: Option<usize>)
        ensures
            size is Some <==> max_stones <= MancalaGameState::TOTAL_STONES && ways(
                max_stones as nat,
                13,
            ) <= usize::MAX,
            size is Some ==> size->0 == ways(max_stones as nat, 13),
    {
        if max_stones > MancalaGameState::TOTAL_STONES {
            return None;
        }
        let count = total_num_game_states_full_board(max_stones);
        if count > usize::MAX as u128 {
            None
        } else {
            Some(count as usize)
        }
    }

    /// Whether the cache is as `new` makes it, for a table whose fields were
    /// filled in by hand.
    pub fn cache_is_ready(&self) -> (ready: bool)
        ensures
            ready == self.cache_ready(),
    {
        if Self::table_size(self.max_stones).is_none() {
            return false;
        }
        if self.cache.len() != self.max_stones as usize + 1 {
            return false;
        }
        let mut num_stones: usize = 0;
        while num_stones <= self.max_stones as usize
            invariant
                self.max_stones <= MancalaGameState::TOTAL_STONES,
                ways(self.max_stones as nat, 13) <= usize::MAX,
                self.cache@.len() == self.max_stones + 1,
                num_stones <= self.max_stones + 1,
                forall|s: int, p: int|
                    0 <= s < num_stones && 0 <= p <= 13 ==> (#[trigger] self.cache@[s]@[p])
                        == cached(s, p),
            decreases self.max_stones + 1 - num_stones,
        {
            if self.cache[num_stones][0] != 0 {
                assert(self.cache@[num_stones as int]@[0] != cached(num_stones as int, 0));
                return false;
            }
            let mut num_pits: usize = 1;
            while num_pits < 14
                invariant
                    1 <= num_pits <= 14,
                    num_stones <= self.max_stones <= MancalaGameState::TOTAL_STONES,
                    self.cache@.len() == self.max_stones + 1,
                    forall|p: int|
                        0 <= p < num_pits ==> (#[trigger] self.cache@[num_stones as int]@[p])
                            == cached(num_stones as int, p),
                decreases 14 - num_pits,
            {
                if self.cache[num_stones][num_pits] as u128 != num_game_states(
                    num_stones as u32,
                    num_pits as u32,
                ) {
                    assert(self.cache@[num_stones as int]@[num_pits as int] != cached(
                        num_stones as int,
                        num_pits as int,
                    ));
                    return false;
                }
                num_pits += 1;
            }
            num_stones += 1;
        }
        true
    }

    /// Whether the table can be consulted, for a table whose fields were
    /// filled in by hand.
    pub fn table_is_ready(&self) -> (ready: bool)
        ensures
            ready == self.is_ready(),
    {
        self.cache_is_ready() && self.current_stones <= self.max_stones && self.stones_in_play
            <= MancalaGameState::TOTAL_STONES && self.table.len() as u128
            == total_num_game_states_full_board(self.current_stones)
    }

    /// A blank table for the positions with at most `max_stones` stones in the
    /// pits.
    pub fn new(max_stones: u32) -> (endgames_table: MancalaEndgamesTable)
        requires
            max_stones <= MancalaGameState::TOTAL_STONES,
            ways(max_stones as nat, 13) <= usize::MAX,
        ensures
            endgames_table.is_blank(),
            endgames_table.max_stones == max_stones,
            endgames_table.current_stones == 0,
            endgames_table.stones_in_play == 0,
    {
        let capacity = total_num_game_states_full_board(max_stones) as usize;
        let mut endgames_table = MancalaEndgamesTable {
            cache: Vec::with_capacity(max_stones as usize + 1),
            table: Vec::with_capacity(capacity),
            max_stones,
            current_stones: 0,
            stones_in_play: 0,
        };
        endgames_table.set_cache(max_stones as usize);
        endgames_table
    }

    /// Fills the cache with the number of ways for all stones up to
    /// `max_stones` and all pits up to thirteen.
    fn set_cache(&mut self, max_stones: usize)
        requires
            max_stones == old(self).max_stones,
            max_stones <= MancalaGameState::TOTAL_STONES,
            ways(max_stones as nat, 13) <= usize::MAX,
            old(self).cache@.len() == 0,
        ensures
            final(self).cache_ready(),
            final(self).table == old(self).table,
            final(self).max_stones == old(self).max_stones,
            final(self).current_stones == old(self).current_stones,
            final(self).stones_in_play == old(self).stones_in_play,
    {
        let mut num_stones: usize = 0;
        while num_stones <= max_stones
            invariant
                max_stones == self.max_stones,
                max_stones <= MancalaGameState::TOTAL_STONES,
                ways(max_stones as nat, 13) <= usize::MAX,
                num_stones <= max_stones + 1,
                self.cache@.len() == num_stones,
                self.table == old(self).table,
                self.max_stones == old(self).max_stones,
                self.current_stones == old(self).current_stones,
                self.stones_in_play == old(self).stones_in_play,
                forall|s: int, p: int|
                    0 <= s < num_stones && 0 <= p <= 13 ==> (#[trigger] self.cache@[s]@[p])
                        == cached(s, p),
            decreases max_stones + 1 - num_stones,
        {
            let mut row = [0usize;14];
            let mut num_pits: usize = 1;
            while num_pits < 14
                invariant
                    1 <= num_pits <= 14,
                    num_stones <= max_stones <= MancalaGameState::TOTAL_STONES,
                    ways(max_stones as nat, 13) <= usize::MAX,
                    forall|p: int|
                        0 <= p < num_pits ==> (#[trigger] row@[p]) == cached(
                            num_stones as int,
                            p,
                        ),
                decreases 14 - num_pits,
            {
                proof {
                    lemma_ways_grows(num_stones as nat, num_pits as nat, max_stones as nat, 13);
                }
                row[num_pits] = num_game_states(num_stones as u32, num_pits as u32) as usize;
                num_pits += 1;
            }
            self.cache.push(row);
            num_stones += 1;
        }
    }

    /// The cell of the `index`-th of the twelve pits, counted from the first
    /// player's first pit.
    fn get_pit_index(&self, index: usize) -> (cell: usize)
        requires
            index < 12,
        ensures
            cell == normal_pit(true, index as int),
    {
        index + index / 6
    }

    /// The cell of the `index`-th of the twelve pits, counted from the first
    /// pit of the player to move.
    fn get_normal_pit(turn: bool, index: usize) -> (cell: usize)
        requires
            index < 12,
        ensures
            cell == normal_pit(turn, index as int),
            cell < 14,
            cell != 6,
            cell != 13,
    {
        if turn {
            index + index / 6
        } else if index < 6 {
            index + 7
        } else {
            index - 6
        }
    }

    /// The index of `game_state`, whose pits hold `remaining_stones` stones.
    pub fn get_index(&self, game_state: &MancalaGameState, remaining_stones: u32) -> (index: usize)
        requires
            self.cache_ready(),
            remaining_stones <= self.max_stones,
            remaining_stones == game_state.stones_in_play(),
        ensures
            index == position_index(*game_state),
            index < ways(remaining_stones as nat, 13),
    {
        if remaining_stones == 0 {
            proof {
                lemma_counts(*game_state);
                lemma_terms_after_empty(normal_counts(*game_state), 0, 12);
                assert(ways(0, 13) == 1);
            }
            return 0;
        }
        let ghost counts = normal_counts(*game_state);
        proof {
            lemma_counts(*game_state);
            lemma_index_range(counts);
            lemma_ways_grows(remaining_stones as nat, 13, self.max_stones as nat, 13);
        }
        let mut remaining = remaining_stones as usize;
        let mut index = self.cache[remaining - 1][13];
        assert(index == index_terms(counts, 1)) by {
            assert(index_terms(counts, 1) == index_terms(counts, 0) + ways_below(
                tail_sum(counts, 0) as nat,
                12,
            ));
        }
        let mut pit_index: usize = 0;
        while pit_index < 11
            invariant
                self.cache_ready(),
                remaining_stones <= self.max_stones,
                counts == normal_counts(*game_state),
                board_counts(counts),
                pit_index <= 11,
                remaining == tail_sum(counts, pit_index as int),
                0 < remaining <= remaining_stones,
                index == index_terms(counts, pit_index + 1),
                index_terms(counts, 12) < ways(remaining_stones as nat, 13) <= usize::MAX,
            decreases 11 - pit_index,
        {
            let cell = Self::get_normal_pit(game_state.turn, pit_index);
            proof {
                lemma_tail_sums(counts, pit_index as int + 1, pit_index as int + 1);
                assert(counts[pit_index as int] == game_state.pits@[cell as int]);
            }
            remaining -= game_state.pits[cell] as usize;
            if remaining == 0 {
                proof {
                    lemma_terms_after_empty(counts, pit_index as int + 1, 12);
                }
                return index;
            }
            proof {
                lemma_later_terms(counts, pit_index as int + 2);
                assert(index_terms(counts, pit_index + 2) == index_terms(counts, pit_index + 1)
                    + ways_below(tail_sum(counts, pit_index + 1) as nat, (11 - pit_index) as nat));
            }
            index += self.cache[remaining - 1][12 - pit_index];
            pit_index += 1;
        }
        index
    }

    /// The position at `index` of the table, which holds `total_num_stones`
    /// stones in its pits: the first player is to move and the stores are
    /// empty.
    pub fn get_game_state(&self, index: usize, total_num_stones: u32) -> (game_state:
        MancalaGameState)
        requires
            self.cache_ready(),
            total_num_stones <= self.max_stones,
            ways_below(total_num_stones as nat, 12) <= index < ways(total_num_stones as nat, 13),
        ensures
            game_state.turn,
            !game_state.game_over,
            game_state.pits@[6] == 0,
            game_state.pits@[13] == 0,
            game_state.stones_in_play() == total_num_stones,
            position_index(game_state) == index,
    {
        let mut game_state = MancalaGameState::new();
        if total_num_stones == 0 {
            proof {
                lemma_counts(game_state);
                lemma_terms_after_empty(normal_counts(game_state), 0, 12);
                assert(ways(0, 13) == 1);
            }
            return game_state;
        }
        let mut remaining_stones = total_num_stones as usize;
        let mut index_guess = self.cache[remaining_stones - 1][13];
        let ghost mut counts = normal_counts(game_state);
        proof {
            lemma_counts(game_state);
            lemma_ways_grows(total_num_stones as nat, 13, self.max_stones as nat, 13);
            let start = counts.update(0, remaining_stones as int);
            lemma_tail_update(counts, 0, remaining_stones as int, 0);
            assert(index_terms(start, 1) == index_terms(start, 0) + ways_below(
                tail_sum(start, 0) as nat,
                12,
            ));
            assert(ways(total_num_stones as nat, 13) == ways((total_num_stones - 1) as nat, 13)
                + ways(total_num_stones as nat, 12));
        }
        let mut pit_index: usize = 0;
        while pit_index < 12
            invariant
                self.cache_ready(),
                total_num_stones <= self.max_stones,
                pit_index <= 12,
                0 < remaining_stones <= total_num_stones,
                index_guess <= index,
                index - index_guess < ways(remaining_stones as nat, (12 - pit_index) as nat),
                index < ways(total_num_stones as nat, 13) <= usize::MAX,
                game_state.turn,
                !game_state.game_over,
                game_state.pits@[6] == 0,
                game_state.pits@[13] == 0,
                counts == normal_counts(game_state),
                board_counts(counts),
                forall|k: int| pit_index <= k < 12 ==> counts[k] == 0,
                tail_sum(counts, 0) + remaining_stones == total_num_stones,
                pit_index < 12 ==> index_guess == index_terms(
                    counts.update(pit_index as int, remaining_stones as int),
                    pit_index + 1,
                ),
            decreases 12 - pit_index,
        {
            let ghost pits_left = (11 - pit_index) as nat;
            let mut next_remaining: usize = 0;
            while next_remaining < remaining_stones && self.cache[next_remaining][12 - pit_index]
                <= index - index_guess
                invariant
                    self.cache_ready(),
                    pit_index < 12,
                    pits_left == 11 - pit_index,
                    remaining_stones <= total_num_stones <= self.max_stones,
                    index_guess <= index,
                    next_remaining <= remaining_stones,
                    ways_below(next_remaining as nat, pits_left) <= index - index_guess,
                decreases remaining_stones - next_remaining,
            {
                next_remaining += 1;
            }
            let cell = self.get_pit_index(pit_index);
            let ghost before = counts;
            let ghost full = counts.update(pit_index as int, remaining_stones as int);
            game_state.pits[cell] = (remaining_stones - next_remaining) as u32;
            proof {
                counts = before.update(pit_index as int, remaining_stones - next_remaining);
                assert(normal_counts(game_state) =~= counts);
                lemma_tail_update(before, pit_index as int, remaining_stones - next_remaining, 0);
                crate::mancala::counting::lemma_ways_below_step(next_remaining as nat, pits_left);
            }
            if next_remaining == 0 {
                proof {
                    assert(counts == full);
                    lemma_tail_update(
                        before,
                        pit_index as int,
                        remaining_stones as int,
                        pit_index as int + 1,
                    );
                    lemma_zero_tail(before, pit_index as int);
                    lemma_terms_after_empty(counts, pit_index as int + 1, 12);
                    lemma_counts(game_state);
                    assert(ways(0, pits_left) == 1);
                }
                return game_state;
            }
            proof {
                if pit_index == 11 {
                    crate::mancala::counting::lemma_ways_one_pit(remaining_stones as nat);
                    assert(ways(0, 1) == 1);
                }
                let next = counts.update(pit_index as int + 1, next_remaining as int);
                assert forall|j: int| 0 <= j < pit_index + 1 implies tail_sum(next, j) == tail_sum(
                    full,
                    j,
                ) by {
                    lemma_tail_update(counts, pit_index as int + 1, next_remaining as int, j);
                    lemma_tail_update(
                        before,
                        pit_index as int,
                        remaining_stones - next_remaining,
                        j,
                    );
                    lemma_tail_update(before, pit_index as int, remaining_stones as int, j);
                }
                lemma_terms_agree(next, full, pit_index as int + 1);
                lemma_tail_update(
                    counts,
                    pit_index as int + 1,
                    next_remaining as int,
                    pit_index as int + 1,
                );
                lemma_tail_update(
                    before,
                    pit_index as int,
                    remaining_stones - next_remaining,
                    pit_index as int + 1,
                );
                lemma_zero_tail(before, pit_index as int + 1);
                assert(index_terms(next, pit_index + 2) == index_terms(next, pit_index + 1)
                    + ways_below(tail_sum(next, pit_index + 1) as nat, pits_left));
            }
            remaining_stones = next_remaining;
            index_guess += self.cache[remaining_stones - 1][12 - pit_index];
            pit_index += 1;
        }
        proof {
            assert(ways(remaining_stones as nat, 0) == 0);
        }
        game_state
    }

    /// The value of `game_state`, if the table holds it.
    pub fn get_value(&self, game_state: &MancalaGameState) -> (value: Option<i32>)
        requires
            self.is_ready(),
            board_stones(game_state.pits@) == self.stones_in_play,
        ensures
            value == self.value_of(*game_state),
    {
        proof {
            reveal(board_stones);
            if game_state.stones_in_play() <= self.current_stones {
                lemma_ways_grows(
                    game_state.stones_in_play() as nat,
                    13,
                    self.current_stones as nat,
                    13,
                );
            }
        }
        let remaining_stones = self.stones_in_play - game_state.pits[6] - game_state.pits[13];
        if self.current_stones < remaining_stones {
            None
        } else {
            let index = self.get_index(game_state, remaining_stones);
            let eval = self.table[index].evaluation as i32;
            let player_eval = if game_state.turn {
                eval
            } else {
                -eval
            };
            Some(player_eval + game_state.pits[6] as i32 - game_state.pits[13] as i32)
        }
    }
}

impl EndgamesLookup<MancalaGameState> for MancalaEndgamesTable {
    open spec fn ready(&self) -> bool {
        self.is_ready()
    }

    open spec fn serves(&self, state: &MancalaGameState) -> bool {
        board_stones(state.pits@) == self.stones_in_play
    }

    open spec fn spec_lookup(&self, state: &MancalaGameState) -> Option<i32> {
        self.value_of(*state)
    }

    proof fn lemma_serves_successors(&self, state: MancalaGameState, i: int) {
        lemma_successor_origin(state, i);
    }

    fn lookup(&self, game_state: &MancalaGameState) -> (value: Option<i32>) {
        self.get_value(game_state)
    }
}

impl EndgamesTable<MancalaGameState> for MancalaEndgamesTable {
    open spec fn blank(&self) -> bool {
        self.is_blank()
    }

    /// Builds the table level by level: the position without stones has the
    /// value zero, and every other position the value that the search finds
    /// with the levels below it.
    fn calculate_endgames(&mut self)
        ensures
            final(self).current_stones == old(self).max_stones,
            final(self).max_stones == old(self).max_stones,
            final(self).stones_in_play == MancalaGameState::TOTAL_STONES,
            final(self).cache == old(self).cache,
            final(self).is_built(),
    {
        proof {
            assert(ways(0, 13) == 1);
        }
        self.table.push(TableEntry { evaluation: 0 });
        self.current_stones = 0;
        let mut num_stones: u32 = 1;
        while num_stones <= self.max_stones
            invariant
                self.cache_ready(),
                self.cache == old(self).cache,
                self.max_stones == old(self).max_stones,
                1 <= num_stones <= self.max_stones + 1,
                self.current_stones == num_stones - 1,
                self.table@.len() == ways(self.current_stones as nat, 13),
                self.is_built(),
            decreases self.max_stones + 1 - num_stones,
        {
            self.stones_in_play = num_stones;
            proof {
                lemma_ways_grows(num_stones as nat, 12, self.max_stones as nat, 13);
                lemma_ways_grows(num_stones as nat, 13, self.max_stones as nat, 13);
                assert(ways(num_stones as nat, 13) == ways((num_stones - 1) as nat, 13) + ways(
                    num_stones as nat,
                    12,
                ));
            }
            let num_games = num_game_states_full_board(num_stones) as usize;
            let offset = self.table.len();
            let mut level: Vec<TableEntry> = Vec::with_capacity(num_games);
            let mut game_index: usize = 0;
            while game_index < num_games
                invariant
                    self.is_ready(),
                    self.is_built(),
                    num_stones <= self.max_stones,
                    self.stones_in_play == num_stones,
                    self.current_stones + 1 == num_stones,
                    offset == ways_below(num_stones as nat, 12),
                    num_games == ways(num_stones as nat, 12),
                    offset + num_games == ways(num_stones as nat, 13),
                    ways(num_stones as nat, 13) <= usize::MAX,
                    game_index <= num_games,
                    level@.len() == game_index,
                    forall|state: MancalaGameState|
                        entry_position(state, num_stones as nat) && offset <= position_index(state)
                            < offset + game_index ==> (#[trigger] level@[position_index(state)
                            - offset]).evaluation == to_entry(built_value(self.table@, state)),
                decreases num_games - game_index,
            {
                let entry = self.evaluate(offset + game_index, num_stones);
                level.push(entry);
                game_index += 1;
            }
            let ghost before = self.table@;
            let ghost added = level@;
            proof {
                lemma_ways_grows(0, 1, self.current_stones as nat, 13);
            }
            self.table.append(&mut level);
            self.current_stones = num_stones;
            proof {
                let after = self.table@;
                assert forall|state: MancalaGameState|
                    1 <= state.stones_in_play() <= num_stones && entry_position(
                        state,
                        state.stones_in_play() as nat,
                    ) implies (#[trigger] after[position_index(state)]).evaluation == to_entry(
                    built_value(after, state),
                ) by {
                    let stones = state.stones_in_play() as nat;
                    lemma_index_in_level(state, stones);
                    lemma_ways_grows((stones - 1) as nat, 13, (num_stones - 1) as nat, 13);
                    lemma_oracle_prefix(before, after, (stones - 1) as u32);
                    if stones < num_stones {
                        lemma_ways_grows(stones, 13, (num_stones - 1) as nat, 13);
                        assert(after[position_index(state)] == before[position_index(state)]);
                    } else {
                        assert(after[position_index(state)] == added[position_index(state)
                            - offset]);
                    }
                }
                assert(after[0] == before[0]);
                assert(built_upto(after, num_stones as nat));
            }
            num_stones += 1;
        }
        self.stones_in_play = MancalaGameState::TOTAL_STONES;
    }
}

impl MancalaEndgamesTable {
    /// The entry of the position at `index`, which holds `num_stones` stones
    /// in its pits: the value that the search finds for it with the levels
    /// below, which the table holds.
    pub fn evaluate(&self, index: usize, num_stones: u32) -> (entry: TableEntry)
        requires
            self.is_ready(),
            self.stones_in_play == num_stones,
            self.current_stones + 1 == num_stones,
            num_stones <= self.max_stones,
            ways_below(num_stones as nat, 12) <= index < ways(num_stones as nat, 13),
        ensures
            forall|state: MancalaGameState|
                entry_position(state, num_stones as nat) && #[trigger] position_index(state)
                    == index ==> entry.evaluation == to_entry(built_value(self.table@, state)),
    {
        let mut game_state = self.get_game_state(index, num_stones);
        let ghost position = game_state;
        proof {
            reveal(board_stones);
            lemma_settled_keeps_stones(game_state);
            assert(oracle_of(self) =~= oracle_in(self.table@, self.current_stones));
        }
        game_state.handle_game_over();
        let value = Solver::<
            MancalaGameState,
            MancalaEndgamesTable,
        >::alphabeta_no_depth_limit(&game_state, i32::MIN, i32::MAX, self);
        let entry = TableEntry { evaluation: #[verifier::truncate] (value as i8) };
        proof {
            assert forall|state: MancalaGameState|
                entry_position(state, num_stones as nat) && #[trigger] position_index(state)
                    == index implies entry.evaluation == to_entry(built_value(self.table@, state)) by {
                lemma_position_injective(state, position);
                assert(state == position);
            }
        }
        entry
    }
}

/// The index of a position is a place among the entries of the levels up to
/// its own.
pub proof fn lemma_index_in_level(state: MancalaGameState, held: nat)
    requires
        state.stones_in_play() <= held,
    ensures
        0 <= position_index(state) < ways(held, 13),
        ways_below(state.stones_in_play() as nat, 12) <= position_index(state) < ways(
            state.stones_in_play() as nat,
            13,
        ),
{
    lemma_counts(state);
    lemma_index_range(normal_counts(state));
    lemma_ways_grows(state.stones_in_play() as nat, 13, held, 13);
}

/// What a table knows depends on the entries of the levels that it holds
/// alone.
pub proof fn lemma_oracle_prefix(shorter: Seq<TableEntry>, longer: Seq<TableEntry>, held: u32)
    requires
        ways(held as nat, 13) <= shorter.len() <= longer.len(),
        forall|i: int| 0 <= i < shorter.len() ==> shorter[i] == longer[i],
    ensures
        oracle_in(shorter, held) == oracle_in(longer, held),
{
    assert forall|state: MancalaGameState| #[trigger]
        oracle_in(shorter, held)(state) == oracle_in(longer, held)(state) by {
        if state.stones_in_play() <= held {
            lemma_index_in_level(state, held as nat);
        }
    }
    assert(oracle_in(shorter, held) =~= oracle_in(longer, held));
}

/// The stones in the pits of a position are the sum of the counts of its pits,
/// which are those of a board.
pub proof fn lemma_counts(state: MancalaGameState)
    ensures
        board_counts(normal_counts(state)),
        tail_sum(normal_counts(state), 0) == state.stones_in_play(),
{
    let counts = normal_counts(state);
    reveal_with_fuel(tail_sum, 13);
    assert(tail_sum(counts, 0) == counts[0] + counts[1] + counts[2] + counts[3] + counts[4]
        + counts[5] + counts[6] + counts[7] + counts[8] + counts[9] + counts[10] + counts[11]);
}

} // verus!
