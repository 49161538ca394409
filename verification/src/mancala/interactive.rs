use crate::mancala::endgames_table::MancalaEndgamesTable;
use crate::mancala::game_state::{board_stones, level_base, MancalaGameState};
use crate::mancala::laws::{lemma_child, lemma_level_gap, lemma_stones_in_play, lemma_weight_bounds};
use crate::mancala::moves::MancalaMove;
use crate::mancala::table_exactness::lemma_solve_exact;
use crate::minimax::endgames_table::{oracle_of, EndgamesLookup};
use crate::minimax::game_state::GameState;
use crate::minimax::memory::{deepening_from, mtdf_with_memory_from, Memory};
use crate::minimax::solver::Solver;
use crate::minimax::transposition_table::TranspositionTable;
use crate::minimax::values::{alphabeta_value, game_value, minimax_value, minimax_with, worst};
use std::rc::Rc;
use vstd::prelude::*;

verus! {

/// The move index that stands for "no move found".
pub const MOVE_NOT_FOUND: usize = 404;

/// The greatest depth of the iterative deepening of a strong solve.
pub const SOLVE_DEPTH: u32 = 28;

/// The number of plies from the root up to which a search remembers states.
pub const TABLE_DEPTH: u32 = 20;

/// The room that the transposition table of a search starts with.
pub const TABLE_CAPACITY: usize = 10000000;

/// The number of plies for which a search to the end of the game has buffers,
/// more than any game of 48 stones can last.
pub const LONGEST_GAME: u32 = 10000;

/// The position after `moves` were played from `state`, each by the player
/// then to move.
pub open spec fn replayed(state: MancalaGameState, moves: Seq<MancalaMove>) -> MancalaGameState
    decreases moves.len(),
{
    if moves.len() == 0 {
        state
    } else {
        replayed(state, moves.drop_last()).child(
            replayed(state, moves.drop_last()).first_pit() + moves.last().index(),
        )
    }
}

/// From the given starting position, plays each of the given moves and
/// returns the resulting position.
pub fn make_moves(start_game_state: MancalaGameState, moves: &Vec<MancalaMove>) -> (game_state:
    MancalaGameState)
    requires
        start_game_state.within_limits(),
    ensures
        game_state == replayed(start_game_state, moves@),
        board_stones(game_state.pits@) == board_stones(start_game_state.pits@),
{
    let mut game_state = start_game_state;
    let mut i: usize = 0;
    assert(moves@.subrange(0, 0) =~= Seq::<MancalaMove>::empty());
    while i < moves.len()
        invariant
            i <= moves@.len(),
            game_state.within_limits(),
            board_stones(game_state.pits@) == board_stones(start_game_state.pits@),
            game_state == replayed(start_game_state, moves@.subrange(0, i as int)),
        decreases moves@.len() - i,
    {
        let mut move_index = moves[i].to_index();
        let players_store: usize;
        let opponents_store: usize;
        if game_state.turn {
            players_store = 6;
            opponents_store = 13;
        } else {
            move_index += 7;
            players_store = 13;
            opponents_store = 6;
        }
        proof {
            assert(moves@.subrange(0, i + 1).drop_last() =~= moves@.subrange(0, i as int));
        }
        game_state.make_move(move_index, players_store, opponents_store);
        i += 1;
    }
    assert(moves@.subrange(0, moves@.len() as int) =~= moves@);
    game_state
}

/// A position of the game, with its 48 stones, is at most 7104 plies from the
/// end.
pub proof fn lemma_game_length(state: MancalaGameState)
    requires
        board_stones(state.pits@) <= MancalaGameState::TOTAL_STONES,
    ensures
        state.horizon() <= 7104,
{
    lemma_stones_in_play(state);
    lemma_weight_bounds(state.pits@, 0);
    lemma_weight_bounds(state.pits@, 7);
    let stones = state.stones_in_play();
    assert(level_base(48) == 6816);
    if stones < 48 {
        lemma_level_gap(stones, 48);
    }
}

/// The move that a strong solve names, looking at the legal moves from the
/// `from`-th on: the first whose successor has the value `eval`, by the word
/// of the endgame table or else by bounds of the memory that agree with each
/// other; without such a move, the mark that none was found.
pub open spec fn named_move(
    endgames_table: &MancalaEndgamesTable,
    memory: Memory<MancalaGameState>,
    state: MancalaGameState,
    eval: int,
    from: int,
) -> usize
    decreases state.legal_moves().len() - from,
{
    if from < 0 || from >= state.legal_moves().len() {
        MOVE_NOT_FOUND
    } else {
        let child_move = state.legal_moves()[from];
        let child = state.child(child_move as int);
        let named = match endgames_table.value_of(child) {
            Some(lookup) => lookup == eval,
            None => memory.contains_key(child) && memory[child].lower_bound.bound
                == memory[child].upper_bound.bound && memory[child].lower_bound.bound == eval,
        };
        if named {
            child_move
        } else {
            named_move(endgames_table, memory, state, eval, from + 1)
        }
    }
}

/// What a strong solve remembers when it names its move: the memory of the
/// iterative deepening, and then of the search to the end of the game.
pub open spec fn solved_memory(
    endgames_table: &MancalaEndgamesTable,
    state: MancalaGameState,
) -> Memory<MancalaGameState> {
    let oracle = oracle_of(endgames_table);
    let (guess, deepened) = deepening_from(
        oracle,
        Map::empty(),
        TABLE_DEPTH,
        state,
        true,
        SOLVE_DEPTH as nat,
        0,
        0,
    );
    mtdf_with_memory_from(
        oracle,
        deepened,
        TABLE_DEPTH,
        state,
        None,
        0,
        guess,
        i32::MIN as int,
        i32::MAX as int,
    ).1
}

/// Strongly solves the given position: the value of the position when both
/// players play every line to its end, with the endgame table's word taken
/// for the positions that it knows, and a move that keeps that value.
///
/// Iterative deepening finds a good estimate first; the search to the end of
/// the game then starts from it.
pub fn strongly_solve(
    start_game_state: MancalaGameState,
    endgames_table: &Rc<MancalaEndgamesTable>,
) -> (solution: (usize, i32))
    requires
        start_game_state.within_limits(),
        endgames_table.is_ready(),
        board_stones(start_game_state.pits@) == endgames_table.stones_in_play,
    ensures
        solution.1 == minimax_with(oracle_of(&**endgames_table), true, start_game_state, None),
        endgames_table.is_built() && start_game_state.live() ==> solution.1 == game_value(
            start_game_state,
        ),
        solution.0 == named_move(
            &**endgames_table,
            solved_memory(&**endgames_table, start_game_state),
            start_game_state,
            solution.1 as int,
            0,
        ),
{
    proof {
        if endgames_table.is_built() && start_game_state.live() {
            lemma_solve_exact(&**endgames_table, start_game_state);
        }
    }
    let max_depth: u32 = SOLVE_DEPTH;
    let mut minimax_solver = Solver::new(
        start_game_state,
        max_depth,
        TABLE_DEPTH,
        TABLE_CAPACITY,
        endgames_table,
    );
    let mut game_state_cache = MancalaGameState::generate_children_memory(LONGEST_GAME);
    let ghost oracle = oracle_of(&**endgames_table);
    let ghost goal = deepening_from(
        oracle,
        Map::empty(),
        TABLE_DEPTH,
        start_game_state,
        true,
        SOLVE_DEPTH as nat,
        0,
        0,
    );
    let mut guess: i32 = 0;
    let mut depth: u32 = 0;
    while depth <= max_depth
        invariant
            max_depth == SOLVE_DEPTH,
            depth <= max_depth + 2,
            minimax_solver.wf(),
            minimax_solver.start_game_state == start_game_state,
            minimax_solver.max_depth == max_depth,
            minimax_solver.transposition_table.max_depth == TABLE_DEPTH,
            minimax_solver.endgames_table == endgames_table,
            oracle == oracle_of(&**endgames_table),
            game_state_cache@.len() == LONGEST_GAME + 1,
            goal == deepening_from(
                oracle,
                minimax_solver.transposition_table@,
                TABLE_DEPTH,
                start_game_state,
                true,
                SOLVE_DEPTH as nat,
                depth as nat,
                guess as int,
            ),
        decreases max_depth + 2 - depth,
    {
        guess = minimax_solver.mtdf_with_memory(guess, depth, game_state_cache.as_mut_slice());
        depth += 2;
    }
    proof {
        lemma_game_length(start_game_state);
    }
    let eval = minimax_solver.mtdf_with_memory_no_depth_limit(
        guess,
        game_state_cache.as_mut_slice(),
    );
    let children = start_game_state.get_children_naive();
    let valid_moves = start_game_state.get_valid_moves();
    let ghost memory = minimax_solver.transposition_table@;
    assert(memory == solved_memory(&**endgames_table, start_game_state));
    let mut i: usize = 0;
    while i < children.len()
        invariant
            eval == minimax_with(oracle_of(&**endgames_table), true, start_game_state, None),
            endgames_table.is_built() && start_game_state.live() ==> eval == game_value(
                start_game_state,
            ),
            memory == solved_memory(&**endgames_table, start_game_state),
            start_game_state.within_limits(),
            endgames_table.is_ready(),
            board_stones(start_game_state.pits@) == endgames_table.stones_in_play,
            minimax_solver.transposition_table.wf(),
            memory == minimax_solver.transposition_table@,
            i <= children@.len(),
            children@.len() == valid_moves@.len(),
            valid_moves@ == start_game_state.legal_moves(),
            children@ == start_game_state.children_by(start_game_state.legal_moves()),
            named_move(&**endgames_table, memory, start_game_state, eval as int, 0) == named_move(
                &**endgames_table,
                memory,
                start_game_state,
                eval as int,
                i as int,
            ),
        decreases children@.len() - i,
    {
        let child = &children[i];
        let child_move = valid_moves[i];
        proof {
            start_game_state.lemma_legal_are_own(6);
            lemma_child(start_game_state, child_move as int);
        }
        if let Some(lookup) = endgames_table.lookup(child) {
            if lookup == eval {
                return (child_move, eval);
            }
        } else if let Some(lookup) = minimax_solver.transposition_table.lookup(child) {
            if lookup.lower_bound.bound == lookup.upper_bound.bound && lookup.lower_bound.bound
                == eval {
                return (child_move, eval);
            }
        }
        i += 1;
    }
    (MOVE_NOT_FOUND, eval)
}

/// The search that an analysis runs at each depth.
#[derive(Clone, Copy, Debug, PartialEq, Eq)]
pub enum SolverAlgorithm {
    Minimax,
    Alphabeta,
    MtdfNoMemory,
    MtdfMemory,
}

/// The values that an analysis of `state` reports at the depths `depth`,
/// `depth + 2` and so on up to `max_depth`. Plain minimax and MTD(f) without
/// memory report the minimax value of the depth, alpha-beta search what it
/// finds in the widest window, which is the same value. MTD(f) with memory
/// starts each search from the value that the one before it found and from
/// what it remembers.
pub open spec fn analysis_from(
    endgames_table: &MancalaEndgamesTable,
    solver: SolverAlgorithm,
    memory: Memory<MancalaGameState>,
    state: MancalaGameState,
    max_depth: nat,
    depth: nat,
    guess: int,
) -> Seq<int>
    decreases max_depth + 2 - depth,
{
    if depth > max_depth {
        Seq::empty()
    } else {
        let (found, after) = match solver {
            SolverAlgorithm::Minimax => (minimax_value(state, depth), memory),
            SolverAlgorithm::Alphabeta => (
                alphabeta_value(state, depth, i32::MIN as int, i32::MAX as int),
                memory,
            ),
            SolverAlgorithm::MtdfNoMemory => (minimax_value(state, depth), memory),
            SolverAlgorithm::MtdfMemory => mtdf_with_memory_from(
                oracle_of(endgames_table),
                memory,
                TABLE_DEPTH,
                state,
                Some(depth),
                (max_depth - depth) as nat,
                guess,
                i32::MIN as int,
                i32::MAX as int,
            ),
        };
        seq![found] + analysis_from(
            endgames_table,
            solver,
            after,
            state,
            max_depth,
            depth + 2,
            found,
        )
    }
}

/// The values that an analysis of `state` reports: those of iterative
/// deepening from the depth of the parity of `max_depth`, two plies deeper
/// each time, up to `max_depth`.
pub open spec fn analysis(
    endgames_table: &MancalaEndgamesTable,
    solver: SolverAlgorithm,
    state: MancalaGameState,
    max_depth: nat,
) -> Seq<int> {
    analysis_from(endgames_table, solver, Map::empty(), state, max_depth, max_depth % 2, 0)
}

/// Analyses the given position by iterative deepening: from the depth of the
/// parity of `max_depth`, two plies deeper each time, up to `max_depth`.
/// Returns the value found at each of these depths, the shallowest first.
pub fn analyse_position(
    start_game_state: MancalaGameState,
    solver: SolverAlgorithm,
    max_depth: u32,
    endgames_table: &Rc<MancalaEndgamesTable>,
) -> (values: Vec<i32>)
    requires
        max_depth < u32::MAX,
        start_game_state.within_limits(),
        endgames_table.is_ready(),
        board_stones(start_game_state.pits@) == endgames_table.stones_in_play,
    ensures
        values@.map_values(|value: i32| value as int) == analysis(
            &**endgames_table,
            solver,
            start_game_state,
            max_depth as nat,
        ),
{
    let mut minimax_solver = Solver::new(
        start_game_state,
        max_depth,
        TABLE_DEPTH,
        TABLE_CAPACITY,
        endgames_table,
    );
    let mut game_state_cache = MancalaGameState::generate_children_memory(max_depth);
    let mut values: Vec<i32> = Vec::new();
    let mut guess: i32 = 0;
    let mut depth: u32 = max_depth % 2;
    let ghost goal = analysis(&**endgames_table, solver, start_game_state, max_depth as nat);
    assert(values@.map_values(|value: i32| value as int) + goal =~= goal);
    loop
        invariant_except_break
            depth <= max_depth,
            goal == values@.map_values(|value: i32| value as int) + analysis_from(
                &**endgames_table,
                solver,
                minimax_solver.transposition_table@,
                start_game_state,
                max_depth as nat,
                depth as nat,
                guess as int,
            ),
        invariant
            max_depth < u32::MAX,
            minimax_solver.wf(),
            minimax_solver.start_game_state == start_game_state,
            minimax_solver.max_depth == max_depth,
            minimax_solver.transposition_table.max_depth == TABLE_DEPTH,
            minimax_solver.endgames_table == endgames_table,
            game_state_cache@.len() == max_depth + 1,
        ensures
            goal == values@.map_values(|value: i32| value as int),
        decreases max_depth - depth,
    {
        let ghost before = values@.map_values(|value: i32| value as int);
        let ghost memory = minimax_solver.transposition_table@;
        guess =
        match solver {
            SolverAlgorithm::Minimax => Solver::<MancalaGameState, MancalaEndgamesTable>::minimax(
                &start_game_state,
                depth,
                game_state_cache.as_mut_slice(),
            ),
            SolverAlgorithm::Alphabeta => Solver::<
                MancalaGameState,
                MancalaEndgamesTable,
            >::alphabeta(
                &start_game_state,
                depth,
                i32::MIN,
                i32::MAX,
                game_state_cache.as_mut_slice(),
            ),
            SolverAlgorithm::MtdfNoMemory => minimax_solver.mtdf_no_memory(
                guess,
                depth,
                game_state_cache.as_mut_slice(),
            ),
            SolverAlgorithm::MtdfMemory => minimax_solver.mtdf_with_memory(
                guess,
                depth,
                game_state_cache.as_mut_slice(),
            ),
        };
        values.push(guess);
        let ghost rest = analysis_from(
            &**endgames_table,
            solver,
            minimax_solver.transposition_table@,
            start_game_state,
            max_depth as nat,
            (depth + 2) as nat,
            guess as int,
        );
        proof {
            assert(values@.map_values(|value: i32| value as int) =~= before.push(guess as int));
            assert(before.push(guess as int) + rest =~= before + (seq![guess as int] + rest));
        }
        if max_depth - depth < 2 {
            proof {
                assert(rest =~= Seq::<int>::empty());
                assert(before.push(guess as int) + rest =~= before.push(guess as int));
            }
            break;
        }
        depth += 2;
    }
    values
}

/// The choice among the successors of `state` after the last `seen` of them
/// were looked at, from the last one backwards: the successor whose value the
/// memory knows exactly and to be the best for the player to move, with that
/// value; the opening position and the worst value while no such successor
/// was seen.
pub open spec fn known_best(
    memory: Memory<MancalaGameState>,
    state: MancalaGameState,
    seen: nat,
) -> (MancalaGameState, int)
    decreases seen,
{
    if seen == 0 || seen > state.successors().len() {
        (MancalaGameState::opening(), worst(state.turn))
    } else {
        let before = known_best(memory, state, (seen - 1) as nat);
        let child = state.successors()[state.successors().len() - seen];
        if memory.contains_key(child) && memory[child].lower_bound.bound
            == memory[child].upper_bound.bound && (if state.turn {
            memory[child].lower_bound.bound > before.1
        } else {
            memory[child].lower_bound.bound < before.1
        }) {
            (child, memory[child].lower_bound.bound as int)
        } else {
            before
        }
    }
}

/// The successor of `game_state` that the memory of a search knows best: of
/// the successors whose bounds agree with each other, the one with the best
/// value for the player to move, and that value. The successors are looked at
/// from the last one backwards, and a later one must be better to be chosen.
pub fn best_known_child(
    transposition_table: &TranspositionTable<MancalaGameState>,
    game_state: &MancalaGameState,
    children_cache: &mut Vec<MancalaGameState>,
) -> (choice: (MancalaGameState, i32))
    requires
        transposition_table.wf(),
        game_state.within_limits(),
    ensures
        (choice.0, choice.1 as int) == known_best(
            transposition_table@,
            *game_state,
            game_state.successors().len(),
        ),
        final(children_cache)@ == game_state.successors(),
{
    game_state.get_children(children_cache);
    let mut best_guess: i32 = if game_state.turn {
        i32::MIN
    } else {
        i32::MAX
    };
    let mut next_game_state = MancalaGameState::default();
    let count = children_cache.len();
    let mut seen: usize = 0;
    while seen < count
        invariant
            transposition_table.wf(),
            seen <= count,
            count == children_cache@.len(),
            children_cache@ == game_state.successors(),
            (next_game_state, best_guess as int) == known_best(
                transposition_table@,
                *game_state,
                seen as nat,
            ),
        decreases count - seen,
    {
        let child = &children_cache[count - 1 - seen];
        if let Some(lookup) = transposition_table.lookup(child) {
            if lookup.lower_bound.bound == lookup.upper_bound.bound {
                if game_state.turn && lookup.lower_bound.bound > best_guess {
                    next_game_state = *child;
                    best_guess = lookup.lower_bound.bound;
                } else if !game_state.turn && lookup.lower_bound.bound < best_guess {
                    next_game_state = *child;
                    best_guess = lookup.lower_bound.bound;
                }
            }
        }
        seen += 1;
    }
    (next_game_state, best_guess)
}

} // verus!
