use mancala_solver::mancala::MancalaGameState;
use mancala_solver::minimax::GameState;

fn position(pits: [u32; 14], turn: bool) -> MancalaGameState {
    MancalaGameState { pits, turn, game_over: false }
}

fn stones(state: &MancalaGameState) -> u32 {
    state.pits.iter().sum()
}

fn children(state: &MancalaGameState) -> Vec<MancalaGameState> {
    let mut cache = state.get_children_cache();
    state.get_children(&mut cache).clone()
}

#[test]
fn new_board_is_empty() {
    let state = MancalaGameState::new();
    assert_eq!(state.pits, [0; 14]);
    assert!(state.turn);
    assert!(!state.game_over);
}

#[test]
fn default_is_the_opening() {
    let state = MancalaGameState::default();
    assert_eq!(state.pits, [4, 4, 4, 4, 4, 4, 0, 4, 4, 4, 4, 4, 4, 0]);
    assert!(state.turn);
    assert!(!state.game_over);
    assert_eq!(stones(&state), MancalaGameState::TOTAL_STONES);
}

#[test]
fn sowing_into_own_store_keeps_the_turn() {
    let mut state = MancalaGameState::default();
    state.make_move(2, 6, 13);
    assert_eq!(state.pits, [4, 4, 0, 5, 5, 5, 1, 4, 4, 4, 4, 4, 4, 0]);
    assert!(state.turn);
    assert!(!state.game_over);
}

#[test]
fn landing_in_an_empty_own_pit_captures() {
    let mut state = position([1, 0, 0, 0, 0, 0, 0, 0, 0, 0, 0, 0, 3, 0], true);
    state.make_move(0, 6, 13);
    assert_eq!(state.pits, [0, 1, 0, 0, 0, 0, 0, 0, 0, 0, 0, 0, 3, 0]);
    assert!(!state.turn);
    assert!(!state.game_over);
}

#[test]
fn capture_moves_the_opposite_stones_to_the_store() {
    let mut state = position([0, 0, 1, 0, 0, 2, 0, 0, 0, 5, 0, 0, 1, 0], true);
    state.make_move(2, 6, 13);
    assert_eq!(state.pits, [0, 0, 0, 1, 0, 2, 5, 0, 0, 0, 0, 0, 1, 0]);
    assert!(!state.turn);
    assert!(!state.game_over);
}

#[test]
fn second_player_captures_too() {
    let mut state = position([0, 0, 0, 7, 0, 1, 0, 0, 1, 0, 0, 0, 2, 0], false);
    state.make_move(8, 13, 6);
    assert_eq!(state.pits, [0, 0, 0, 0, 0, 1, 0, 0, 0, 1, 0, 0, 2, 7]);
    assert!(state.turn);
    assert!(!state.game_over);
}

#[test]
fn emptying_the_last_pit_ends_the_game() {
    let mut state = position([0, 0, 0, 0, 0, 1, 10, 0, 0, 0, 0, 0, 0, 5], true);
    state.make_move(5, 6, 13);
    assert!(state.game_over);
    assert_eq!(state.pits, [0, 0, 0, 0, 0, 0, 11, 0, 0, 0, 0, 0, 0, 5]);
    assert_eq!(state.pits[6] + state.pits[13], 16);
}

#[test]
fn the_other_side_is_swept_when_a_side_runs_empty() {
    let mut state = position([0, 0, 0, 0, 0, 1, 3, 2, 0, 0, 4, 0, 1, 5], true);
    state.make_move(5, 6, 13);
    assert!(state.game_over);
    assert_eq!(state.pits, [0, 0, 0, 0, 0, 0, 4, 0, 0, 0, 0, 0, 0, 12]);
}

#[test]
fn a_large_pile_comes_back_to_its_pit() {
    let mut state = position([0, 0, 15, 0, 0, 0, 0, 1, 0, 0, 0, 0, 0, 0], true);
    state.make_move(2, 6, 13);
    assert_eq!(state.pits, [1, 1, 1, 2, 2, 1, 1, 2, 1, 1, 1, 1, 1, 0]);
    assert!(!state.turn);
    assert!(!state.game_over);
}

#[test]
fn thirteen_stones_land_alone_in_their_own_pit_and_capture() {
    let mut state = position([0, 13, 0, 0, 0, 0, 0, 0, 0, 0, 0, 2, 0, 0], true);
    state.make_move(1, 6, 13);
    assert_eq!(state.pits, [1, 1, 1, 1, 1, 1, 4, 1, 1, 1, 1, 0, 1, 0]);
    assert!(!state.turn);
}

#[test]
fn the_opponents_store_is_skipped() {
    let mut state = position([0, 0, 0, 0, 0, 9, 0, 1, 0, 0, 0, 0, 0, 7], true);
    state.make_move(5, 6, 13);
    // the last seed lies alone in pit 1 and captures the seed of pit 11
    assert_eq!(state.pits, [1, 1, 0, 0, 0, 0, 2, 2, 1, 1, 1, 0, 1, 7]);
    assert!(!state.turn);
    let mut state = position([0, 3, 0, 0, 0, 9, 0, 1, 0, 0, 0, 0, 0, 7], true);
    state.make_move(5, 6, 13);
    assert_eq!(state.pits, [1, 4, 0, 0, 0, 0, 1, 2, 1, 1, 1, 1, 1, 7]);
    assert!(!state.turn);
}

#[test]
fn handle_game_over_sweeps_the_first_players_stones() {
    let mut state = position([1, 2, 0, 0, 0, 3, 4, 0, 0, 0, 0, 0, 0, 9], false);
    state.handle_game_over();
    assert!(state.game_over);
    assert_eq!(state.pits, [0, 0, 0, 0, 0, 0, 10, 0, 0, 0, 0, 0, 0, 9]);
    assert!(!state.turn);
}

#[test]
fn handle_game_over_leaves_a_live_position_alone() {
    let mut state = MancalaGameState::default();
    state.handle_game_over();
    assert_eq!(state, MancalaGameState::default());
}

#[test]
fn heuristic_is_the_difference_of_the_stores() {
    let state = position([0, 0, 0, 0, 0, 1, 10, 0, 0, 0, 0, 0, 3, 34], true);
    assert_eq!(state.heuristic(), -24);
    assert_eq!(MancalaGameState::default().heuristic(), 0);
}

#[test]
fn turn_and_end_are_reported() {
    let mut state = MancalaGameState::default();
    assert!(state.is_maximising_player());
    assert!(!state.is_game_over());
    state.turn = false;
    state.game_over = true;
    assert!(!state.is_maximising_player());
    assert!(state.is_game_over());
}

#[test]
fn children_put_extra_turns_first() {
    let state = MancalaGameState::default();
    let found = children(&state);
    assert_eq!(found.len(), 6);
    // pit 2 holds four stones and lies four steps from the store
    assert_eq!(found[0].pits, [4, 4, 0, 5, 5, 5, 1, 4, 4, 4, 4, 4, 4, 0]);
    assert!(found[0].turn);
    let mut expected = Vec::new();
    for source in [0usize, 1, 3, 4, 5] {
        let mut child = state;
        child.make_move(source, 6, 13);
        expected.push(child);
    }
    assert_eq!(&found[1..], &expected[..]);
}

#[test]
fn a_full_lap_into_the_store_counts_as_an_extra_turn() {
    // pit 7 holds 19 stones: one lap of 13 and 6 more, which reach store 13
    let state = position([1, 0, 0, 0, 0, 0, 0, 19, 0, 0, 0, 0, 1, 0], false);
    let found = children(&state);
    assert_eq!(found.len(), 2);
    let mut by_lap = state;
    by_lap.make_move(7, 13, 6);
    let mut by_step = state;
    by_step.make_move(12, 13, 6);
    assert!(!by_lap.turn);
    assert!(!by_step.turn);
    assert_eq!(found[0], by_lap);
    assert_eq!(found[1], by_step);
}

#[test]
fn children_of_the_second_player() {
    let state = position([4, 4, 4, 4, 4, 4, 0, 0, 2, 0, 3, 0, 1, 2], false);
    let found = children(&state);
    let moves = state.get_valid_moves();
    assert_eq!(moves, vec![8, 10, 12]);
    // 10 and 12 reach the store exactly
    let order = [10usize, 12, 8];
    assert_eq!(found.len(), 3);
    for (child, source) in found.iter().zip(order) {
        let mut expected = state;
        expected.make_move(source, 13, 6);
        assert_eq!(*child, expected);
    }
}

#[test]
fn children_replace_what_the_buffer_held() {
    let state = MancalaGameState::default();
    let mut cache = vec![MancalaGameState::new(); 9];
    let found = state.get_children(&mut cache).clone();
    assert_eq!(found.len(), 6);
    assert_eq!(cache, found);
}

#[test]
fn no_children_without_stones_to_play() {
    let over = MancalaGameState { pits: [0, 0, 0, 0, 0, 0, 30, 0, 0, 0, 0, 0, 0, 18], turn: true, game_over: true };
    assert!(children(&over).is_empty());
    let empty_side = position([0, 0, 0, 0, 0, 0, 3, 1, 0, 0, 0, 0, 0, 0], true);
    assert!(children(&empty_side).is_empty());
    assert!(empty_side.get_children_naive().is_empty());
    assert!(empty_side.get_valid_moves().is_empty());
    assert!(!children(&MancalaGameState::default()).is_empty());
}

#[test]
fn naive_children_come_in_board_order() {
    let state = position([0, 3, 0, 1, 0, 2, 0, 1, 1, 1, 1, 1, 1, 0], true);
    let moves = state.get_valid_moves();
    assert_eq!(moves, vec![1, 3, 5]);
    let found = state.get_children_naive();
    assert_eq!(found.len(), 3);
    for (child, source) in found.iter().zip(moves) {
        let mut expected = state;
        expected.make_move(source, 6, 13);
        assert_eq!(*child, expected);
    }
}

#[test]
fn every_child_keeps_the_stones_and_empties_one_pit() {
    let mut frontier = vec![MancalaGameState::default()];
    for _ in 0..4 {
        let mut next = Vec::new();
        for state in &frontier {
            let moves = state.get_valid_moves();
            let naive = state.get_children_naive();
            let ordered = children(state);
            assert_eq!(naive.len(), moves.len());
            assert_eq!(ordered.len(), moves.len());
            for child in &ordered {
                assert_eq!(stones(child), 48);
                assert!(naive.contains(child));
            }
            for (child, source) in naive.iter().zip(&moves) {
                assert!(state.pits[*source] > 0);
                assert!(child.pits[*source] <= 1);
                assert_eq!(stones(child), 48);
            }
            next.extend(ordered);
        }
        frontier = next;
    }
    assert!(frontier.len() > 500);
}

#[test]
fn a_game_played_to_its_end_is_zero_sum() {
    let mut state = MancalaGameState::default();
    let mut plies = 0;
    while !state.game_over {
        let found = children(&state);
        assert!(!found.is_empty());
        state = found[found.len() - 1];
        assert_eq!(stones(&state), 48);
        plies += 1;
        assert!(plies < 7104);
    }
    assert_eq!(state.pits[6] + state.pits[13], 48);
    assert_eq!(state.heuristic(), state.pits[6] as i32 - state.pits[13] as i32);
    assert!(state.heuristic() >= -48 && state.heuristic() <= 48);
    assert!(children(&state).is_empty());
}

#[test]
fn children_memory_has_a_buffer_for_each_ply() {
    let memory = MancalaGameState::generate_children_memory(7);
    assert_eq!(memory.len(), 8);
    assert!(memory.iter().all(|buffer| buffer.is_empty()));
    assert_eq!(MancalaGameState::generate_children_memory(0).len(), 1);
}

#[test]
fn equal_positions_are_filed_alike() {
    let a = position([1, 2, 3, 4, 5, 6, 7, 8, 9, 10, 11, 12, 13, 14], true);
    let b = position([1, 2, 3, 4, 5, 6, 7, 8, 9, 10, 11, 12, 13, 14], true);
    let c = position([1, 2, 3, 4, 5, 6, 7, 8, 9, 10, 11, 12, 13, 15], true);
    let d = position([1, 2, 3, 4, 5, 6, 7, 8, 9, 10, 11, 12, 13, 14], false);
    assert!(a.same_state(&b));
    assert_eq!(a.hash_code(), b.hash_code());
    assert!(!a.same_state(&c));
    assert!(!a.same_state(&d));
    assert_ne!(a.hash_code(), c.hash_code());
    assert_ne!(a.hash_code(), d.hash_code());
    let zero = MancalaGameState::new();
    assert_eq!(zero.hash_code(), 2);
    let mut one = zero;
    one.pits[13] = 1;
    one.game_over = true;
    assert_eq!(one.hash_code(), 7);
    one.pits[12] = 1;
    assert_eq!(one.hash_code(), (31 + 1) * 4 + 3);
}
