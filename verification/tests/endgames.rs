use mancala_solver::mancala::counting::{
    num_game_states, num_game_states_full_board, total_num_game_states_full_board,
};
use mancala_solver::mancala::endgames_table::TableEntry;
use mancala_solver::mancala::persistence::EndgamesFileError;
use mancala_solver::mancala::MancalaEndgamesTable;
use mancala_solver::mancala::MancalaGameState;
use mancala_solver::minimax::EndgamesLookup;
use mancala_solver::minimax::EndgamesTable;
use mancala_solver::minimax::Solver;

type MancalaSolver<'a> = Solver<'a, MancalaGameState, MancalaEndgamesTable>;

fn built(max_stones: u32) -> MancalaEndgamesTable {
    let mut table = MancalaEndgamesTable::new(max_stones);
    table.calculate_endgames();
    table
}

/// The position of the game that holds `pits` in its pits: the stores share
/// the stones that are not in play.
fn in_game(pits: [u32; 12], turn: bool) -> MancalaGameState {
    let in_play: u32 = pits.iter().sum();
    let mut state = MancalaGameState::new();
    state.pits[..6].copy_from_slice(&pits[..6]);
    state.pits[7..13].copy_from_slice(&pits[6..]);
    state.pits[6] = (48 - in_play) / 2 + 3;
    state.pits[13] = 48 - in_play - state.pits[6];
    state.turn = turn;
    state
}

fn swapped(state: &MancalaGameState) -> MancalaGameState {
    let mut other = *state;
    for cell in 0..14 {
        other.pits[cell] = state.pits[(cell + 7) % 14];
    }
    other.turn = !state.turn;
    other
}

#[test]
fn ways_to_spread_stones_over_pits() {
    assert_eq!(num_game_states(0, 5), 1);
    assert_eq!(num_game_states(7, 1), 1);
    assert_eq!(num_game_states(1, 12), 12);
    assert_eq!(num_game_states(4, 3), 15);
    assert_eq!(num_game_states(2, 12), 78);
    assert_eq!(num_game_states_full_board(3), 364);
    assert_eq!(total_num_game_states_full_board(0), 1);
    assert_eq!(total_num_game_states_full_board(3), 455);
    assert_eq!(total_num_game_states_full_board(6), 18564);
    assert_eq!(total_num_game_states_full_board(48), 1399358844975);
    assert_eq!(
        total_num_game_states_full_board(5),
        (0..=5).map(num_game_states_full_board).sum::<u128>()
    );
}

#[test]
fn the_size_of_a_table() {
    assert_eq!(MancalaEndgamesTable::table_size(0), Some(1));
    assert_eq!(MancalaEndgamesTable::table_size(6), Some(18564));
    assert_eq!(MancalaEndgamesTable::table_size(49), None);
    assert_eq!(MancalaEndgamesTable::table_size(u32::MAX), None);
}

#[test]
fn a_new_table_is_blank_and_knows_the_ways() {
    let table = MancalaEndgamesTable::new(5);
    assert_eq!(table.max_stones, 5);
    assert!(table.table.is_empty());
    assert_eq!(table.cache.len(), 6);
    for stones in 0..=5u32 {
        assert_eq!(table.cache[stones as usize][0], 0);
        for pits in 1..14u32 {
            assert_eq!(table.cache[stones as usize][pits as usize] as u128, num_game_states(stones, pits));
        }
    }
    assert_eq!(table.cache[5][13], 6188);
}

#[test]
fn the_index_is_a_perfect_hash() {
    let table = MancalaEndgamesTable::new(5);
    let mut next = 0;
    for stones in 0..=5u32 {
        let level = num_game_states_full_board(stones) as usize;
        for index in next..next + level {
            let state = table.get_game_state(index, stones);
            assert!(state.turn);
            assert!(!state.game_over);
            assert_eq!(state.pits[6], 0);
            assert_eq!(state.pits[13], 0);
            assert_eq!(state.pits.iter().sum::<u32>(), stones);
            assert_eq!(table.get_index(&state, stones), index);
        }
        next += level;
    }
    assert_eq!(next, 6188);
}

#[test]
fn boards_with_more_stones_in_the_first_pit_come_first() {
    let table = MancalaEndgamesTable::new(3);
    assert_eq!(table.get_game_state(0, 0).pits, [0; 14]);
    assert_eq!(table.get_game_state(1, 1).pits, [1, 0, 0, 0, 0, 0, 0, 0, 0, 0, 0, 0, 0, 0]);
    assert_eq!(table.get_game_state(2, 1).pits, [0, 1, 0, 0, 0, 0, 0, 0, 0, 0, 0, 0, 0, 0]);
    assert_eq!(table.get_game_state(7, 1).pits, [0, 0, 0, 0, 0, 0, 0, 1, 0, 0, 0, 0, 0, 0]);
    assert_eq!(table.get_game_state(12, 1).pits, [0, 0, 0, 0, 0, 0, 0, 0, 0, 0, 0, 0, 1, 0]);
    assert_eq!(table.get_game_state(13, 2).pits, [2, 0, 0, 0, 0, 0, 0, 0, 0, 0, 0, 0, 0, 0]);
    assert_eq!(table.get_game_state(14, 2).pits, [1, 1, 0, 0, 0, 0, 0, 0, 0, 0, 0, 0, 0, 0]);
    assert_eq!(table.get_game_state(90, 2).pits, [0, 0, 0, 0, 0, 0, 0, 0, 0, 0, 0, 0, 2, 0]);
    assert_eq!(table.get_game_state(91, 3).pits, [3, 0, 0, 0, 0, 0, 0, 0, 0, 0, 0, 0, 0, 0]);
    let second = MancalaGameState {
        pits: [0, 0, 0, 0, 0, 0, 0, 1, 1, 0, 0, 0, 0, 0],
        turn: false,
        game_over: false,
    };
    assert_eq!(table.get_index(&second, 2), 14);
}

#[test]
fn a_built_table_holds_every_level() {
    let table = built(4);
    assert_eq!(table.table.len(), 1820);
    assert_eq!(table.current_stones, 4);
    assert_eq!(table.max_stones, 4);
    assert_eq!(table.stones_in_play, 48);
    assert_eq!(table.table[0], TableEntry { evaluation: 0 });
    // one stone in a pit of the first player: the second player's side is
    // empty, and the stone is swept home
    assert_eq!(table.table[6].evaluation, 1);
    // one stone in a pit of the second player: it is swept home as well
    assert_eq!(table.table[7].evaluation, -1);
    for entry in &table.table {
        assert!(entry.evaluation >= -4 && entry.evaluation <= 4);
    }
}

#[test]
fn a_lookup_adds_the_stores_and_takes_the_side_of_the_mover() {
    let table = built(2);
    let state = MancalaGameState {
        pits: [0, 0, 0, 0, 0, 1, 30, 0, 0, 0, 0, 0, 0, 17],
        turn: true,
        game_over: false,
    };
    assert_eq!(table.get_value(&state), Some(14));
    assert_eq!(table.lookup(&state), Some(14));
    let state = MancalaGameState {
        pits: [0, 0, 0, 0, 0, 0, 30, 0, 0, 0, 0, 0, 1, 17],
        turn: false,
        game_over: false,
    };
    assert_eq!(table.get_value(&state), Some(12));
    let over = MancalaGameState {
        pits: [0, 0, 0, 0, 0, 0, 20, 0, 0, 0, 0, 0, 0, 28],
        turn: false,
        game_over: true,
    };
    assert_eq!(table.get_value(&over), Some(-8));
}

#[test]
fn a_board_with_more_stones_than_the_table_holds_is_a_miss() {
    let table = built(2);
    let state = in_game([1, 0, 0, 0, 0, 1, 0, 0, 1, 0, 0, 0], true);
    assert_eq!(table.get_value(&state), None);
    assert_eq!(table.get_value(&MancalaGameState::default()), None);
    let state = in_game([1, 0, 0, 0, 0, 0, 0, 0, 1, 0, 0, 0], true);
    assert!(table.get_value(&state).is_some());
}

#[test]
fn swapping_the_sides_negates_the_value() {
    let table = built(4);
    let blank = MancalaEndgamesTable::new(4);
    let mut next = 0;
    for stones in 0..=4u32 {
        let level = num_game_states_full_board(stones) as usize;
        for index in next..next + level {
            let mut state = blank.get_game_state(index, stones);
            state.pits[6] = 30;
            state.pits[13] = 18 - stones;
            for turn in [true, false] {
                state.turn = turn;
                let value = table.get_value(&state).unwrap();
                assert_eq!(table.get_value(&swapped(&state)), Some(-value));
            }
        }
        next += level;
    }
}

#[test]
fn every_entry_is_the_value_that_a_search_without_the_table_finds() {
    let max_stones = 4;
    let mut table = built(max_stones);
    let mut blank = built(0);
    let mut next = 0;
    for stones in 0..=max_stones {
        table.stones_in_play = stones;
        blank.stones_in_play = stones;
        let level = num_game_states_full_board(stones) as usize;
        for index in next..next + level {
            let mut state = table.get_game_state(index, stones);
            let known = table.lookup(&state).unwrap();
            assert_eq!(known, table.table[index].evaluation as i32);
            state.handle_game_over();
            let found = MancalaSolver::alphabeta_no_depth_limit(&state, i32::MIN, i32::MAX, &blank);
            assert_eq!(found, known);
        }
        next += level;
    }
}

#[test]
fn a_table_written_and_read_back_answers_the_same() {
    let table = built(6);
    let bytes = table.to_bytes();
    assert_eq!(bytes.len(), 4 + 18564);
    assert_eq!(bytes[..4], 6u32.to_ne_bytes());
    let loaded = MancalaEndgamesTable::from_bytes(&bytes).unwrap();
    assert_eq!(loaded.max_stones, 6);
    assert_eq!(loaded.current_stones, 6);
    assert_eq!(loaded.stones_in_play, 48);
    assert_eq!(loaded.table, table.table);
    assert_eq!(loaded.cache, table.cache);
    let mut next = 0;
    for stones in 0..=6u32 {
        let level = num_game_states_full_board(stones) as usize;
        for index in next..next + level {
            let mut state = table.get_game_state(index, stones);
            state.pits[6] = 48 - stones;
            for turn in [true, false] {
                state.turn = turn;
                assert_eq!(loaded.lookup(&state), table.lookup(&state));
            }
        }
        next += level;
    }
    assert_eq!(loaded.lookup(&MancalaGameState::default()), None);
}

#[test]
fn entries_are_written_as_their_eight_bits() {
    let mut table = MancalaEndgamesTable::new(1);
    for evaluation in [0i8, 1, -1, 127, -128, 5, -7, 0, 3, -3, 2, -2, 9] {
        table.table.push(TableEntry { evaluation });
    }
    let bytes = table.to_bytes();
    assert_eq!(bytes[4..], [0u8, 1, 255, 127, 128, 5, 249, 0, 3, 253, 2, 254, 9]);
    let loaded = MancalaEndgamesTable::from_entries(1, &bytes[4..]).unwrap();
    assert_eq!(loaded.table, table.table);
}

#[test]
fn bytes_that_are_no_table_are_refused() {
    assert_eq!(MancalaEndgamesTable::from_bytes(&[]).err(), Some(EndgamesFileError::TooShort));
    assert_eq!(MancalaEndgamesTable::from_bytes(&[1, 0, 0]).err(), Some(EndgamesFileError::TooShort));
    let mut bytes = 49u32.to_ne_bytes().to_vec();
    bytes.push(0);
    assert_eq!(
        MancalaEndgamesTable::from_bytes(&bytes).err(),
        Some(EndgamesFileError::TooManyStones)
    );
    let mut bytes = 1u32.to_ne_bytes().to_vec();
    bytes.extend([0u8; 12]);
    assert_eq!(
        MancalaEndgamesTable::from_bytes(&bytes).err(),
        Some(EndgamesFileError::WrongLength)
    );
    bytes.push(0);
    assert!(MancalaEndgamesTable::from_bytes(&bytes).is_ok());
    assert_eq!(
        MancalaEndgamesTable::from_entries(2, &[0u8; 13]).err(),
        Some(EndgamesFileError::WrongLength)
    );
    assert_eq!(
        MancalaEndgamesTable::from_entries(60, &[0u8; 13]).err(),
        Some(EndgamesFileError::TooManyStones)
    );
}

#[test]
fn a_level_is_evaluated_entry_by_entry() {
    let mut table = built(2);
    let full = built(3);
    table.max_stones = 3;
    table.cache = full.cache.clone();
    table.stones_in_play = 3;
    let first = total_num_game_states_full_board(2) as usize;
    let last = total_num_game_states_full_board(3) as usize;
    for index in first..last {
        assert_eq!(table.evaluate(index, 3), full.table[index]);
    }
}

#[test]
fn a_file_is_its_header_and_its_entries() {
    let mut table = MancalaEndgamesTable::new(1);
    for evaluation in [0i8, 1, -1] {
        table.table.push(TableEntry { evaluation });
    }
    assert_eq!(table.framed([9, 8, 7, 6]), vec![9, 8, 7, 6, 0, 1, 255]);
    assert_eq!(MancalaEndgamesTable::header(&[9, 8, 7, 6, 0, 1, 255]), [9, 8, 7, 6]);
    assert_eq!(MancalaEndgamesTable::header(&[1, 2, 3, 4]), [1, 2, 3, 4]);
    let bytes = built(3).to_bytes();
    let header = MancalaEndgamesTable::header(&bytes);
    assert!(header == [3, 0, 0, 0] || header == [0, 0, 0, 3]);
    // a number whose bytes read the same from either end
    let mut bytes = vec![1u8, 0, 0, 1];
    bytes.push(0);
    assert_eq!(
        MancalaEndgamesTable::from_bytes(&bytes).err(),
        Some(EndgamesFileError::TooManyStones)
    );
    let loaded = MancalaEndgamesTable::from_bytes(&[0, 0, 0, 0, 7]).unwrap();
    assert_eq!(loaded.max_stones, 0);
    assert_eq!(loaded.table, vec![TableEntry { evaluation: 7 }]);
}

#[test]
fn a_table_filled_in_by_hand_is_checked() {
    let blank = MancalaEndgamesTable::new(3);
    assert!(blank.cache_is_ready());
    assert!(!blank.table_is_ready());
    let table = built(3);
    assert!(table.cache_is_ready());
    assert!(table.table_is_ready());
    for stones in 0..=3 {
        assert_eq!(table.cache[stones][0], 0);
    }
    let mut wrong = table.clone();
    wrong.cache[2][0] = 1;
    assert!(!wrong.cache_is_ready());
    let mut wrong = table.clone();
    wrong.cache[1][5] += 1;
    assert!(!wrong.cache_is_ready());
    assert!(!wrong.table_is_ready());
    let mut wrong = table.clone();
    wrong.cache.pop();
    assert!(!wrong.cache_is_ready());
    let mut wrong = table.clone();
    wrong.max_stones = 49;
    assert!(!wrong.cache_is_ready());
    let mut wrong = table.clone();
    wrong.table.pop();
    assert!(wrong.cache_is_ready());
    assert!(!wrong.table_is_ready());
    let mut wrong = table.clone();
    wrong.current_stones = 4;
    assert!(!wrong.table_is_ready());
    let mut wrong = table.clone();
    wrong.stones_in_play = 49;
    assert!(!wrong.table_is_ready());
    let mut level = table.clone();
    level.stones_in_play = 2;
    assert!(level.table_is_ready());
}
