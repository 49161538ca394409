use crate::minimax::endgames_table::{oracle_of, EndgamesLookup, EndgamesTable};
use crate::minimax::game_state::GameLaws;
use crate::minimax::memory::{deepening_from, mtdf_with_memory_from, search_with_memory};
use crate::minimax::solver::Solver;
use crate::minimax::theorems::{lemma_minimax_in_range, lemma_pruned_brackets};
use crate::minimax::transposition_table::TranspositionTable;
use crate::minimax::values::{alphabeta_value, minimax_value, no_oracle};
use vstd::prelude::*;

verus! {

/// The endgame table that knows no state.
pub struct NoEndgames;

impl<T: GameLaws> EndgamesLookup<T> for NoEndgames {
    open spec fn ready(&self) -> bool {
        true
    }

    open spec fn serves(&self, state: &T) -> bool {
        true
    }

    open spec fn spec_lookup(&self, state: &T) -> Option<i32> {
        None
    }

    proof fn lemma_serves_successors(&self, state: T, i: int) {
    }

    fn lookup(&self, game_state: &T) -> (value: Option<i32>) {
        None
    }
}

impl<T: GameLaws> EndgamesTable<T> for NoEndgames {
    open spec fn blank(&self) -> bool {
        true
    }

    fn calculate_endgames(&mut self) {
    }
}

/// The searches as plain functions of the state searched, without an endgame
/// table.
pub struct MinimaxSolver;

impl MinimaxSolver {
    /// Plain minimax, `depth` plies deep.
    pub fn minimax<T: GameLaws>(game_state: &T, depth: u32, children_memory: &mut [Vec<T>]) -> (value:
        i32)
        requires
            game_state.valid(),
            old(children_memory)@.len() >= depth,
        ensures
            value == minimax_value(*game_state, depth as nat),
            final(children_memory)@.len() == old(children_memory)@.len(),
    {
        Solver::<T, NoEndgames>::minimax(game_state, depth, children_memory)
    }

    /// Alpha-beta search, `depth` plies deep, in the window from `alpha` to
    /// `beta`.
    pub fn alphabeta<T: GameLaws>(
        game_state: &T,
        depth: u32,
        alpha: i32,
        beta: i32,
        children_memory: &mut [Vec<T>],
    ) -> (value: i32)
        requires
            game_state.valid(),
            old(children_memory)@.len() >= depth,
        ensures
            value == alphabeta_value(*game_state, depth as nat, alpha as int, beta as int),
            final(children_memory)@.len() == old(children_memory)@.len(),
    {
        Solver::<T, NoEndgames>::alphabeta(game_state, depth, alpha, beta, children_memory)
    }

    /// The MTD(f) driver without memory: the minimax value of `game_state`,
    /// `depth` plies deep, whatever the `guess`.
    pub fn mtdf_no_memory<T: GameLaws>(
        game_state: &T,
        mut guess: i32,
        depth: u32,
        children_memory: &mut [Vec<T>],
    ) -> (value: i32)
        requires
            game_state.valid(),
            old(children_memory)@.len() >= depth,
        ensures
            value == minimax_value(*game_state, depth as nat),
            final(children_memory)@.len() == old(children_memory)@.len(),
    {
        let mut beta: i32;
        let mut lower_bound = i32::MIN;
        let mut upper_bound = i32::MAX;
        let ghost exact = minimax_value(*game_state, depth as nat);
        proof {
            lemma_minimax_in_range(no_oracle(), false, *game_state, Some(depth as nat));
        }
        while lower_bound < upper_bound
            invariant
                game_state.valid(),
                children_memory@.len() == old(children_memory)@.len(),
                children_memory@.len() >= depth,
                exact == minimax_value(*game_state, depth as nat),
                lower_bound <= exact <= upper_bound,
                guess <= upper_bound,
                guess == lower_bound || guess == upper_bound || (lower_bound == i32::MIN
                    && upper_bound == i32::MAX),
            decreases upper_bound - lower_bound,
        {
            beta = if guess > lower_bound + 1 {
                guess
            } else {
                lower_bound + 1
            };
            proof {
                lemma_pruned_brackets(
                    no_oracle(),
                    false,
                    *game_state,
                    Some(depth as nat),
                    beta - 1,
                    beta as int,
                );
            }
            guess = Self::alphabeta(game_state, depth, beta - 1, beta, children_memory);
            if guess < beta {
                upper_bound = guess;
            } else {
                lower_bound = guess;
            }
        }
        guess
    }

    /// Alpha-beta search with memory, `depth` plies deep, of a state that lies
    /// `max_depth - depth` plies below the root.
    pub fn alphabeta_with_memory<T: GameLaws>(
        transposition_table: &mut TranspositionTable<T>,
        game_state: &T,
        max_depth: u32,
        depth: u32,
        alpha: i32,
        beta: i32,
        children_memory: &mut [Vec<T>],
    ) -> (value: i32)
        requires
            old(transposition_table).wf(),
            game_state.valid(),
            depth <= max_depth,
            old(children_memory)@.len() > depth,
        ensures
            (value as int, final(transposition_table)@) == search_with_memory(
                oracle_of::<T, NoEndgames>(&NoEndgames),
                old(transposition_table)@,
                old(transposition_table).max_depth,
                *game_state,
                Some(depth as nat),
                (max_depth - depth) as nat,
                alpha as int,
                beta as int,
            ),
            final(transposition_table).wf(),
            final(transposition_table).max_depth == old(transposition_table).max_depth,
            final(children_memory)@.len() == old(children_memory)@.len(),
    {
        Solver::<T, NoEndgames>::remembering(
            transposition_table,
            &NoEndgames,
            game_state,
            Some(depth),
            max_depth - depth,
            alpha,
            beta,
            children_memory,
        )
    }

    /// The MTD(f) driver with memory: zero-window searches of `game_state`,
    /// `depth` plies deep, around `guess`.
    pub fn mtdf_with_memory<T: GameLaws>(
        transposition_table: &mut TranspositionTable<T>,
        game_state: &T,
        mut guess: i32,
        depth: u32,
        children_memory: &mut [Vec<T>],
    ) -> (value: i32)
        requires
            old(transposition_table).wf(),
            game_state.valid(),
            old(children_memory)@.len() > depth,
        ensures
            (value as int, final(transposition_table)@) == mtdf_with_memory_from(
                oracle_of::<T, NoEndgames>(&NoEndgames),
                old(transposition_table)@,
                old(transposition_table).max_depth,
                *game_state,
                Some(depth as nat),
                0,
                guess as int,
                i32::MIN as int,
                i32::MAX as int,
            ),
            final(transposition_table).wf(),
            final(transposition_table).max_depth == old(transposition_table).max_depth,
            final(children_memory)@.len() == old(children_memory)@.len(),
    {
        let mut beta: i32;
        let mut lower_bound = i32::MIN;
        let mut upper_bound = i32::MAX;
        let ghost oracle = oracle_of::<T, NoEndgames>(&NoEndgames);
        let ghost reach = transposition_table.max_depth;
        let ghost goal = mtdf_with_memory_from(
            oracle,
            transposition_table@,
            reach,
            *game_state,
            Some(depth as nat),
            0,
            guess as int,
            i32::MIN as int,
            i32::MAX as int,
        );
        while lower_bound < upper_bound
            invariant
                transposition_table.wf(),
                game_state.valid(),
                oracle == oracle_of::<T, NoEndgames>(&NoEndgames),
                reach == transposition_table.max_depth,
                reach == old(transposition_table).max_depth,
                children_memory@.len() == old(children_memory)@.len(),
                children_memory@.len() > depth,
                lower_bound < upper_bound ==> guess <= upper_bound,
                goal == mtdf_with_memory_from(
                    oracle,
                    transposition_table@,
                    reach,
                    *game_state,
                    Some(depth as nat),
                    0,
                    guess as int,
                    lower_bound as int,
                    upper_bound as int,
                ),
            decreases
                    (if upper_bound > lower_bound {
                        upper_bound - lower_bound
                    } else {
                        0
                    }),
        {
            beta = if guess > lower_bound + 1 {
                guess
            } else {
                lower_bound + 1
            };
            guess =
            Self::alphabeta_with_memory(
                transposition_table,
                game_state,
                depth,
                depth,
                beta - 1,
                beta,
                children_memory,
            );
            if guess < beta {
                upper_bound = guess;
            } else {
                lower_bound = guess;
            }
        }
        guess
    }

    /// MTD(f) with memory in iterative deepening: from the depth of the parity
    /// of `max_depth`, two plies deeper each time, up to `max_depth`. The
    /// memory lasts from one depth to the next.
    pub fn mtdf_with_memory_iterative_deepening<T: GameLaws>(
        start_game_state: &T,
        max_depth: u32,
        max_table_depth: u32,
        max_table_capacity: usize,
        children_memory: &mut [Vec<T>],
    ) -> (value: i32)
        requires
            start_game_state.valid(),
            old(children_memory)@.len() > max_depth,
        ensures
            value == deepening_from(
                oracle_of::<T, NoEndgames>(&NoEndgames),
                Map::empty(),
                max_table_depth,
                *start_game_state,
                false,
                max_depth as nat,
                (max_depth % 2) as nat,
                0,
            ).0,
            final(children_memory)@.len() == old(children_memory)@.len(),
    {
        let mut transposition_table = TranspositionTable::with_capacity(
            max_table_capacity,
            max_table_depth,
        );
        let mut guess: i32 = 0;
        let mut depth: u32 = max_depth % 2;
        let ghost oracle = oracle_of::<T, NoEndgames>(&NoEndgames);
        let ghost goal = deepening_from(
            oracle,
            transposition_table@,
            max_table_depth,
            *start_game_state,
            false,
            max_depth as nat,
            depth as nat,
            0,
        );
        loop
            invariant_except_break
                depth <= max_depth,
                goal == deepening_from(
                    oracle,
                    transposition_table@,
                    max_table_depth,
                    *start_game_state,
                    false,
                    max_depth as nat,
                    depth as nat,
                    guess as int,
                ),
            invariant
                transposition_table.wf(),
                transposition_table.max_depth == max_table_depth,
                start_game_state.valid(),
                oracle == oracle_of::<T, NoEndgames>(&NoEndgames),
                children_memory@.len() == old(children_memory)@.len(),
                children_memory@.len() > max_depth,
            ensures
                guess == goal.0,
            decreases max_depth - depth,
        {
            guess =
            Self::mtdf_with_memory(
                &mut transposition_table,
                start_game_state,
                guess,
                depth,
                children_memory,
            );
            if max_depth - depth < 2 {
                assert(deepening_from(
                    oracle,
                    transposition_table@,
                    max_table_depth,
                    *start_game_state,
                    false,
                    max_depth as nat,
                    (depth + 2) as nat,
                    guess as int,
                ).0 == guess);
                break;
            }
            depth += 2;
        }
        guess
    }
}

} // verus!
