use mancala_solver::mancala::interactive::{
    analyse_position, best_known_child, strongly_solve, SolverAlgorithm, MOVE_NOT_FOUND,
};
use mancala_solver::mancala::MancalaEndgamesTable;
use mancala_solver::mancala::MancalaGameState;
use mancala_solver::minimax::EndgamesLookup;
use mancala_solver::minimax::EndgamesTable;
use mancala_solver::minimax::GameState;
use mancala_solver::minimax::MinimaxSolver;
use mancala_solver::minimax::Solver;
use mancala_solver::minimax::TranspositionTable;
use std::rc::Rc;

type MancalaSolver<'a> = Solver<'a, MancalaGameState, MancalaEndgamesTable>;

fn position(pits: [u32; 14], turn: bool) -> MancalaGameState {
    MancalaGameState { pits, turn, game_over: false }
}

fn midgame() -> MancalaGameState {
    position([0, 2, 0, 5, 1, 3, 9, 4, 0, 1, 0, 6, 2, 15], false)
}

fn built(max_stones: u32) -> Rc<MancalaEndgamesTable> {
    let mut table = MancalaEndgamesTable::new(max_stones);
    table.calculate_endgames();
    Rc::new(table)
}

fn successors(state: &MancalaGameState) -> Vec<MancalaGameState> {
    let mut cache = state.get_children_cache();
    state.get_children(&mut cache).clone()
}

/// Minimax as the textbook has it, to hold the library's searches against.
fn textbook(state: &MancalaGameState, depth: u32) -> i32 {
    if depth == 0 || state.game_over {
        return state.pits[6] as i32 - state.pits[13] as i32;
    }
    let values = successors(state).into_iter().map(|child| textbook(&child, depth - 1));
    if state.turn {
        values.max().unwrap_or(i32::MIN)
    } else {
        values.min().unwrap_or(i32::MAX)
    }
}

/// The value of the game played to its end.
fn played_out(state: &MancalaGameState) -> i32 {
    textbook(state, u32::MAX)
}

#[test]
fn minimax_of_the_opening() {
    let start = MancalaGameState::default();
    let mut cache = MancalaGameState::generate_children_memory(4);
    assert_eq!(MancalaSolver::minimax(&start, 0, &mut cache), 0);
    assert_eq!(MancalaSolver::minimax(&start, 1, &mut cache), 1);
    assert_eq!(MancalaSolver::minimax(&start, 2, &mut cache), 2);
    assert_eq!(cache.len(), 5);
}

#[test]
fn minimax_is_the_textbook_value() {
    let mut cache = MancalaGameState::generate_children_memory(5);
    for state in [MancalaGameState::default(), midgame()] {
        for depth in 0..=5 {
            let expected = textbook(&state, depth);
            assert_eq!(MancalaSolver::minimax(&state, depth, &mut cache), expected);
            assert_eq!(MinimaxSolver::minimax(&state, depth, &mut cache), expected);
        }
    }
}

#[test]
fn a_player_without_a_move_gets_the_worst_value() {
    let stuck = position([0, 0, 0, 0, 0, 0, 3, 1, 0, 0, 0, 0, 0, 2], true);
    let mut cache = MancalaGameState::generate_children_memory(3);
    assert_eq!(MancalaSolver::minimax(&stuck, 3, &mut cache), i32::MIN);
    assert_eq!(MancalaSolver::alphabeta(&stuck, 3, -5, 5, &mut cache), i32::MIN);
    let stuck = position([1, 0, 0, 0, 0, 0, 3, 0, 0, 0, 0, 0, 0, 2], false);
    assert_eq!(MancalaSolver::minimax(&stuck, 3, &mut cache), i32::MAX);
}

#[test]
fn alphabeta_in_the_widest_window_is_minimax() {
    let mut cache = MancalaGameState::generate_children_memory(6);
    for state in [MancalaGameState::default(), midgame()] {
        for depth in 0..=6 {
            let expected = MancalaSolver::minimax(&state, depth, &mut cache);
            let found = MancalaSolver::alphabeta(&state, depth, i32::MIN, i32::MAX, &mut cache);
            assert_eq!(found, expected);
            let found = MinimaxSolver::alphabeta(&state, depth, i32::MIN, i32::MAX, &mut cache);
            assert_eq!(found, expected);
        }
    }
}

#[test]
fn alphabeta_brackets_minimax() {
    let mut cache = MancalaGameState::generate_children_memory(5);
    for state in [MancalaGameState::default(), midgame()] {
        for depth in 1..=5 {
            let exact = MancalaSolver::minimax(&state, depth, &mut cache);
            for alpha in -9..9 {
                for width in 1..4 {
                    let beta = alpha + width;
                    let found = MancalaSolver::alphabeta(&state, depth, alpha, beta, &mut cache);
                    if found <= alpha {
                        assert!(exact <= found);
                    } else if found >= beta {
                        assert!(exact >= found);
                    } else {
                        assert_eq!(exact, found);
                    }
                }
            }
        }
    }
}

#[test]
fn mtdf_is_minimax_whatever_the_guess() {
    let table = built(0);
    let mut cache = MancalaGameState::generate_children_memory(6);
    for state in [MancalaGameState::default(), midgame()] {
        let solver = Solver::new(state, 6, 0, 16, &table);
        for depth in 0..=6 {
            let expected = textbook(&state, depth);
            for guess in [0, -7, 3, 48, i32::MIN, i32::MAX] {
                assert_eq!(solver.mtdf_no_memory(guess, depth, &mut cache), expected);
                assert_eq!(
                    MinimaxSolver::mtdf_no_memory(&state, guess, depth, &mut cache),
                    expected
                );
            }
        }
    }
}

#[test]
fn mtdf_equals_alphabeta_at_depth_ten() {
    let table = built(0);
    let start = MancalaGameState::default();
    let solver = Solver::new(start, 10, 0, 16, &table);
    let mut cache = MancalaGameState::generate_children_memory(10);
    let by_mtdf = solver.mtdf_no_memory(0, 10, &mut cache);
    let by_alphabeta = MancalaSolver::alphabeta(&start, 10, i32::MIN, i32::MAX, &mut cache);
    assert_eq!(by_mtdf, by_alphabeta);
}

#[test]
fn a_search_that_remembers_the_root_alone_is_alphabeta() {
    let table = built(0);
    let mut cache = MancalaGameState::generate_children_memory(5);
    for state in [MancalaGameState::default(), midgame()] {
        for depth in 0..=5 {
            let expected = textbook(&state, depth);
            let mut solver = Solver::new(state, depth, 0, 16, &table);
            let found = solver.alphabeta_with_memory(&state, depth, i32::MIN, i32::MAX, &mut cache);
            assert_eq!(found, expected);
            let entry = solver.transposition_table.lookup(&state).unwrap();
            assert_eq!((entry.lower_bound.bound, entry.lower_bound.depth), (expected, depth));
            assert_eq!((entry.upper_bound.bound, entry.upper_bound.depth), (expected, depth));
            let mut solver = Solver::new(state, depth, 0, 16, &table);
            assert_eq!(solver.mtdf_with_memory(17, depth, &mut cache), expected);
        }
    }
}

#[test]
fn values_outside_the_window_are_stored_as_bounds() {
    let table = built(0);
    let state = midgame();
    let depth = 4;
    let exact = textbook(&state, depth);
    let mut cache = MancalaGameState::generate_children_memory(depth);

    let mut solver = Solver::new(state, depth, 0, 16, &table);
    let low = solver.alphabeta_with_memory(&state, depth, exact, exact + 3, &mut cache);
    assert!(low <= exact);
    let entry = *solver.transposition_table.lookup(&state).unwrap();
    assert_eq!((entry.upper_bound.bound, entry.upper_bound.depth), (low, depth));
    assert_eq!((entry.lower_bound.bound, entry.lower_bound.depth), (i32::MIN, 0));

    let mut solver = Solver::new(state, depth, 0, 16, &table);
    let high = solver.alphabeta_with_memory(&state, depth, exact - 3, exact, &mut cache);
    assert!(high >= exact);
    let entry = *solver.transposition_table.lookup(&state).unwrap();
    assert_eq!((entry.lower_bound.bound, entry.lower_bound.depth), (high, depth));
    assert_eq!((entry.upper_bound.bound, entry.upper_bound.depth), (i32::MAX, 0));
}

#[test]
fn states_far_from_the_root_are_not_remembered() {
    let table = built(0);
    let state = MancalaGameState::default();
    let mut cache = MancalaGameState::generate_children_memory(3);
    let mut solver = Solver::new(state, 3, 1, 16, &table);
    solver.alphabeta_with_memory(&state, 3, i32::MIN, i32::MAX, &mut cache);
    assert!(solver.transposition_table.lookup(&state).is_some());
    let children = successors(&state);
    for child in &children {
        let entry = solver.transposition_table.lookup(child).unwrap();
        assert!(entry.lower_bound.depth == 2 || entry.upper_bound.depth == 2);
        for grandchild in successors(child) {
            if grandchild != state && !children.contains(&grandchild) {
                assert!(solver.transposition_table.lookup(&grandchild).is_none());
            }
        }
    }
    // a state below the reach of the memory, searched on its own
    let mut solver = Solver::new(state, 3, 1, 16, &table);
    solver.alphabeta_with_memory(&children[1], 1, i32::MIN, i32::MAX, &mut cache);
    assert!(solver.transposition_table.lookup(&children[1]).is_none());
}

#[test]
fn stored_bounds_settle_the_value_or_narrow_the_window() {
    let table = built(0);
    let state = midgame();
    let mut cache = MancalaGameState::generate_children_memory(3);
    let exact = textbook(&state, 3);

    // a lower bound at or above beta from a deeper search
    let mut solver = Solver::new(state, 3, 0, 16, &table);
    let entry = solver.transposition_table.get(&state);
    entry.lower_bound.bound = 30;
    entry.lower_bound.depth = 5;
    assert_eq!(solver.alphabeta_with_memory(&state, 3, -40, 20, &mut cache), 30);
    let entry = *solver.transposition_table.lookup(&state).unwrap();
    assert_eq!((entry.lower_bound.bound, entry.lower_bound.depth), (30, 5));

    // an upper bound at or below alpha from a search of the same depth
    let mut solver = Solver::new(state, 3, 0, 16, &table);
    let entry = solver.transposition_table.get(&state);
    entry.upper_bound.bound = -30;
    entry.upper_bound.depth = 3;
    assert_eq!(solver.alphabeta_with_memory(&state, 3, -20, 40, &mut cache), -30);

    // bounds from a shallower search do not count
    let mut solver = Solver::new(state, 3, 0, 16, &table);
    let entry = solver.transposition_table.get(&state);
    entry.lower_bound.bound = 30;
    entry.lower_bound.depth = 2;
    entry.upper_bound.bound = -30;
    entry.upper_bound.depth = 2;
    assert_eq!(solver.alphabeta_with_memory(&state, 3, i32::MIN, i32::MAX, &mut cache), exact);

    // bounds that count narrow the window: the value found is stored under it
    let mut solver = Solver::new(state, 3, 0, 16, &table);
    let entry = solver.transposition_table.get(&state);
    entry.lower_bound.bound = exact;
    entry.lower_bound.depth = 3;
    entry.upper_bound.bound = exact + 2;
    entry.upper_bound.depth = 9;
    let found = solver.alphabeta_with_memory(&state, 3, i32::MIN, i32::MAX, &mut cache);
    assert!(found <= exact);
    let entry = *solver.transposition_table.lookup(&state).unwrap();
    assert_eq!((entry.upper_bound.bound, entry.upper_bound.depth), (found, 3));
    assert_eq!((entry.lower_bound.bound, entry.lower_bound.depth), (exact, 3));
}

#[test]
fn iterative_deepening_finds_the_value_of_the_last_depth() {
    let mut cache = MancalaGameState::generate_children_memory(6);
    for state in [MancalaGameState::default(), midgame()] {
        for max_depth in 0..=6 {
            let found = MinimaxSolver::mtdf_with_memory_iterative_deepening(
                &state, max_depth, 0, 16, &mut cache,
            );
            assert_eq!(found, textbook(&state, max_depth));
        }
    }
}

#[test]
fn memory_searches_without_a_solver() {
    let state = midgame();
    let mut cache = MancalaGameState::generate_children_memory(4);
    let mut memory = mancala_solver::minimax::TranspositionTable::new(0);
    let found = MinimaxSolver::alphabeta_with_memory(
        &mut memory, &state, 4, 4, i32::MIN, i32::MAX, &mut cache,
    );
    assert_eq!(found, textbook(&state, 4));
    let entry = memory.lookup(&state).unwrap();
    assert_eq!((entry.lower_bound.bound, entry.lower_bound.depth), (found, 4));
    let mut memory = mancala_solver::minimax::TranspositionTable::with_capacity(8, 0);
    let found = MinimaxSolver::mtdf_with_memory(&mut memory, &state, -3, 4, &mut cache);
    assert_eq!(found, textbook(&state, 4));
}

#[test]
fn the_endgame_table_answers_before_the_search() {
    let table = built(3);
    // three stones in the pits, the rest in the stores
    let state = position([0, 0, 0, 0, 1, 1, 20, 0, 0, 1, 0, 0, 0, 25], true);
    let known = table.lookup(&state).unwrap();
    assert_eq!(known, played_out(&state));
    let mut cache = MancalaGameState::generate_children_memory(2);
    let mut solver = Solver::new(state, 2, 5, 16, &table);
    assert_eq!(solver.alphabeta_with_memory(&state, 2, -1, 1, &mut cache), known);
    let entry = *solver.transposition_table.lookup(&state).unwrap();
    assert_eq!((entry.lower_bound.bound, entry.lower_bound.depth), (known, u32::MAX));
    assert_eq!((entry.upper_bound.bound, entry.upper_bound.depth), (known, u32::MAX));
    // where the table answers, the search needs no buffer
    let mut none: Vec<Vec<MancalaGameState>> = Vec::new();
    let mut solver = Solver::new(state, 2, 5, 16, &table);
    assert_eq!(solver.alphabeta_with_memory(&state, 2, -1, 1, &mut none), known);
    assert_eq!(
        solver.alphabeta_with_memory_no_depth_limit(&state, 0, -1, 1, &mut none),
        known
    );
    assert_eq!(solver.test(&state, -1, 1, &mut none), known);
}

fn endgames() -> Vec<MancalaGameState> {
    vec![
        position([0, 0, 1, 0, 1, 1, 21, 1, 0, 1, 0, 0, 1, 21], true),
        position([0, 0, 1, 0, 1, 1, 21, 1, 0, 1, 0, 0, 1, 21], false),
        position([1, 1, 0, 0, 0, 1, 22, 0, 1, 0, 0, 1, 1, 20], true),
        position([1, 0, 0, 1, 0, 0, 20, 2, 0, 0, 1, 0, 1, 22], false),
    ]
}

#[test]
fn searches_to_the_end_find_the_value_of_the_game() {
    let table = built(4);
    let blank = built(0);
    for state in endgames() {
        assert!(table.lookup(&state).is_none());
        let expected = played_out(&state);
        for known in [&table, &blank] {
            let found = MancalaSolver::alphabeta_no_depth_limit(&state, i32::MIN, i32::MAX, known);
            assert_eq!(found, expected);
            let mut cache = MancalaGameState::generate_children_memory(200);
            let mut solver = Solver::new(state, 28, 20, 16, known);
            assert_eq!(solver.test(&state, i32::MIN, i32::MAX, &mut cache), expected);
            assert_eq!(solver.mtdf_test(5, &mut cache), expected);
            assert_eq!(
                solver.alphabeta_with_memory_no_depth_limit(
                    &state, 0, i32::MIN, i32::MAX, &mut cache
                ),
                expected
            );
            let entry = *solver.transposition_table.lookup(&state).unwrap();
            assert_eq!((entry.lower_bound.bound, entry.lower_bound.depth), (expected, u32::MAX));
            assert_eq!((entry.upper_bound.bound, entry.upper_bound.depth), (expected, u32::MAX));
            let mut solver = Solver::new(state, 28, 20, 16, known);
            assert_eq!(solver.mtdf_with_memory_no_depth_limit(-2, &mut cache), expected);
        }
    }
}

#[test]
fn searches_to_the_end_bracket_the_value_of_the_game() {
    let table = built(3);
    for state in endgames() {
        let exact = played_out(&state);
        for alpha in exact - 3..exact + 3 {
            let beta = alpha + 1;
            let found = MancalaSolver::alphabeta_no_depth_limit(&state, alpha, beta, &table);
            if found <= alpha {
                assert!(exact <= found);
            } else {
                assert!(exact >= found);
            }
        }
    }
}

#[test]
fn a_strong_solve_names_the_value_and_a_move_that_keeps_it() {
    let table = built(4);
    for state in endgames() {
        let (child_move, eval) = strongly_solve(state, &table);
        assert_eq!(eval, played_out(&state));
        if child_move != MOVE_NOT_FOUND {
            assert!(state.get_valid_moves().contains(&child_move));
            let mut child = state;
            if state.turn {
                child.make_move(child_move, 6, 13);
            } else {
                child.make_move(child_move, 13, 6);
            }
            assert_eq!(played_out(&child), eval);
        }
    }
}

#[test]
fn a_strong_solve_of_a_known_position_reads_the_table() {
    let table = built(4);
    let state = position([0, 0, 0, 1, 0, 2, 22, 0, 1, 0, 0, 0, 0, 22], true);
    let (child_move, eval) = strongly_solve(state, &table);
    assert_eq!(eval, table.lookup(&state).unwrap());
    assert_eq!(eval, played_out(&state));
    assert_ne!(child_move, MOVE_NOT_FOUND);
    let over = MancalaGameState {
        pits: [0, 0, 0, 0, 0, 0, 26, 0, 0, 0, 0, 0, 0, 22],
        turn: true,
        game_over: true,
    };
    assert_eq!(strongly_solve(over, &table), (MOVE_NOT_FOUND, 4));
}

#[test]
fn an_analysis_reports_every_second_depth() {
    let table = built(0);
    let state = midgame();
    for (max_depth, depths) in [(4, vec![0, 2, 4]), (5, vec![1, 3, 5]), (0, vec![0]), (1, vec![1])] {
        let by_depth: Vec<i32> = depths.iter().map(|depth| textbook(&state, *depth)).collect();
        for solver in [
            SolverAlgorithm::Minimax,
            SolverAlgorithm::Alphabeta,
            SolverAlgorithm::MtdfNoMemory,
        ] {
            assert_eq!(analyse_position(state, solver, max_depth, &table), by_depth);
        }
        let with_memory = analyse_position(state, SolverAlgorithm::MtdfMemory, max_depth, &table);
        assert_eq!(with_memory.len(), depths.len());
        assert_eq!(with_memory[0], by_depth[0]);
        assert!(with_memory.iter().all(|value| (-48..=48).contains(value)));
    }
    // the values are those of the position that is given, not of the opening
    let opening = MancalaGameState::default();
    assert_ne!(
        analyse_position(state, SolverAlgorithm::Minimax, 2, &table),
        analyse_position(opening, SolverAlgorithm::Minimax, 2, &table)
    );
    assert_eq!(analyse_position(opening, SolverAlgorithm::Alphabeta, 2, &table), vec![0, 2]);
}

#[test]
fn the_best_child_that_the_memory_knows_exactly() {
    let table = built(0);
    let state = midgame();
    let children = successors(&state);
    assert!(children.len() >= 3);
    let mut solver = Solver::new(state, 4, 4, 16, &table);
    let mut cache = Vec::new();
    // nothing is known: the opening position stands for no choice
    let nothing = best_known_child(&solver.transposition_table, &state, &mut cache);
    assert_eq!(nothing, (MancalaGameState::default(), i32::MAX));
    assert_eq!(cache, children);
    for (child, (lower, upper)) in children.iter().zip([(3, 3), (-2, -2), (-5, 1)]) {
        let entry = solver.transposition_table.get(child);
        entry.lower_bound.bound = lower;
        entry.upper_bound.bound = upper;
    }
    // the second player minimises; the bounds of the third child disagree
    let choice = best_known_child(&solver.transposition_table, &state, &mut cache);
    assert_eq!(choice, (children[1], -2));
    let mut first = state;
    first.turn = true;
    let children = successors(&first);
    for (child, bound) in children.iter().zip([4, 4, 1]) {
        let entry = solver.transposition_table.get(child);
        entry.lower_bound.bound = bound;
        entry.upper_bound.bound = bound;
    }
    // of two equal values the one looked at first, from the back, stays
    let choice = best_known_child(&solver.transposition_table, &first, &mut cache);
    assert_eq!(choice, (children[1], 4));
}

#[test]
fn the_values_of_iterative_deepening_stay_within_the_stones() {
    let table = built(2);
    let mut cache = MancalaGameState::generate_children_memory(7);
    for state in [MancalaGameState::default(), midgame()] {
        let mut reported = Vec::new();
        for max_depth in 0..=7 {
            let found = MinimaxSolver::mtdf_with_memory_iterative_deepening(
                &state, max_depth, 20, 64, &mut cache,
            );
            assert!((-48..=48).contains(&found));
            reported.push(found);
        }
        let mut solver = Solver::new(state, 6, 20, 64, &table);
        for depth in [0, 2, 4, 6] {
            let found = solver.mtdf_with_memory(reported[depth as usize], depth, &mut cache);
            assert!((-48..=48).contains(&found));
            reported.push(found);
        }
        for (shallow, deep) in reported.iter().zip(&reported[2..]) {
            assert!((deep - shallow).abs() <= 96);
        }
    }
}

#[test]
fn a_table_tells_apart_the_states_of_one_bucket() {
    // the codes of these states agree: their stores differ by the modulus
    let states: Vec<MancalaGameState> = (0..2)
        .flat_map(|first| (0..2).map(move |second| (first, second)))
        .map(|(first, second)| {
            let mut state = MancalaGameState::default();
            state.pits[6] = first * 1_000_000_007;
            state.pits[13] = second * 1_000_000_007;
            state
        })
        .collect();
    for state in &states {
        assert_eq!(state.hash_code(), states[0].hash_code());
    }
    let mut table: TranspositionTable<MancalaGameState> = TranspositionTable::with_capacity(4, 9);
    assert_eq!(table.max_depth, 9);
    assert!(table.lookup(&states[2]).is_none());
    for (place, state) in states.iter().enumerate().take(3) {
        let entry = table.get(state);
        assert_eq!((entry.lower_bound.bound, entry.lower_bound.depth), (i32::MIN, 0));
        assert_eq!((entry.upper_bound.bound, entry.upper_bound.depth), (i32::MAX, 0));
        entry.lower_bound.bound = place as i32;
        entry.upper_bound.depth = 100 + place as u32;
    }
    assert_eq!(table.data.len(), 1);
    for (place, state) in states.iter().enumerate().take(3) {
        let entry = table.lookup(state).unwrap();
        assert_eq!(entry.lower_bound.bound, place as i32);
        assert_eq!(entry.upper_bound.depth, 100 + place as u32);
    }
    assert!(table.lookup(&states[3]).is_none());
    // a state that is in the table keeps its element
    let entry = table.get(&states[1]);
    assert_eq!(entry.lower_bound.bound, 1);
    entry.lower_bound.bound = -5;
    assert_eq!(table.lookup(&states[1]).unwrap().lower_bound.bound, -5);
    assert_eq!(table.lookup(&states[2]).unwrap().lower_bound.bound, 2);
    assert_eq!(table.lookup(&states[0]).unwrap().lower_bound.bound, 0);
    let other = TranspositionTable::<MancalaGameState>::new(3);
    assert_eq!(other.max_depth, 3);
    assert!(other.lookup(&states[0]).is_none());
}
