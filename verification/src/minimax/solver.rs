use crate::minimax::endgames_table::{oracle_of, EndgamesLookup};
use crate::minimax::game_state::GameLaws;
use crate::minimax::memory::{
    children_with_memory, lemma_unlimited_value, mtdf_with_memory_from, search_with_memory,
};
use crate::minimax::theorems::{lemma_minimax_in_range, lemma_pruned_brackets};
use crate::minimax::transposition_table::{TranspositionTable, TranspositionTableElement};
use crate::minimax::values::{
    alphabeta_value, best_of_first, minimax_value, minimax_with, no_oracle, pruned_from,
    pruned_with, worst, Limit,
};
use std::rc::Rc;
use vstd::prelude::*;

verus! {

/// A search driver for one start state: it owns the transposition table and
/// borrows the endgame table.
pub struct Solver<'a, T: GameLaws, E: EndgamesLookup<T>> {
    pub start_game_state: T,
    pub max_depth: u32,
    pub transposition_table: TranspositionTable<T>,
    pub endgames_table: &'a Rc<E>,
}

/// The limit that a search `depth` plies deep, or one without a depth limit,
/// works under.
pub open spec fn limit_of(depth: Option<u32>) -> Limit {
    match depth {
        Some(depth) => Some(depth as nat),
        None => None,
    }
}

/// A search of `state`, `plies` below the root, has the buffers that it needs,
/// one for each ply that it can go down, and can count the plies.
pub open spec fn has_room<T: GameLaws>(
    state: T,
    depth: Option<u32>,
    plies: u32,
    buffers: nat,
) -> bool {
    match depth {
        Some(depth) => buffers > depth && plies + depth <= u32::MAX,
        None => buffers > state.horizon() && plies + state.horizon() <= u32::MAX,
    }
}

impl<'a, T: GameLaws, E: EndgamesLookup<T>> Solver<'a, T, E> {
    /// The driver can search: its tables are in order, and the endgame table
    /// serves the start state.
    pub open spec fn wf(&self) -> bool {
        &&& self.transposition_table.wf()
        &&& self.endgames_table.ready()
        &&& self.start_game_state.valid()
        &&& self.endgames_table.serves(&self.start_game_state)
    }

    /// A search that changes nothing of the driver but what it remembers.
    pub open spec fn same_setup(&self, other: &Self) -> bool {
        &&& self.start_game_state == other.start_game_state
        &&& self.max_depth == other.max_depth
        &&& self.transposition_table.max_depth == other.transposition_table.max_depth
        &&& self.endgames_table == other.endgames_table
    }

    /// A driver that searches from `start_game_state`, remembers the states
    /// at most `max_table_depth` plies from the root, and consults
    /// `endgames_table`.
    pub fn new(
        start_game_state: T,
        max_depth: u32,
        max_table_depth: u32,
        transposition_table_capacity: usize,
        endgames_table: &'a Rc<E>,
    ) -> (solver: Self)
        ensures
            solver.start_game_state == start_game_state,
            solver.max_depth == max_depth,
            solver.transposition_table.wf(),
            solver.transposition_table@ == Map::<T, TranspositionTableElement>::empty(),
            solver.transposition_table.max_depth == max_table_depth,
            solver.endgames_table == endgames_table,
    {
        Solver {
            start_game_state,
            max_depth,
            transposition_table: TranspositionTable::with_capacity(
                transposition_table_capacity,
                max_table_depth,
            ),
            endgames_table,
        }
    }

    /// Plain minimax, `depth` plies deep.
    pub fn minimax(game_state: &T, depth: u32, game_state_cache: &mut [Vec<T>]) -> (value: i32)
        requires
            game_state.valid(),
            old(game_state_cache)@.len() >= depth,
        ensures
            value == minimax_value(*game_state, depth as nat),
            final(game_state_cache)@.len() == old(game_state_cache)@.len(),
        decreases depth, 1nat,
    {
        if depth == 0 || game_state.is_game_over() {
            return game_state.heuristic();
        }
        let (current_cache, remaining_cache) = game_state_cache.split_at_mut(1);
        Self::minimax_children(game_state, depth, &mut current_cache[0], remaining_cache)
    }

    /// The best of the minimax values of the successors of `game_state`.
    fn minimax_children(
        game_state: &T,
        depth: u32,
        current_cache: &mut Vec<T>,
        remaining_cache: &mut [Vec<T>],
    ) -> (value: i32)
        requires
            game_state.valid(),
            !game_state.finished(),
            depth > 0,
            old(remaining_cache)@.len() >= depth - 1,
        ensures
            value == best_of_first(
                no_oracle(),
                false,
                *game_state,
                Some(depth as nat),
                game_state.successors().len(),
            ),
            final(remaining_cache)@.len() == old(remaining_cache)@.len(),
        decreases depth, 0nat,
    {
        game_state.get_children(current_cache);
        let count = current_cache.len();
        let maximising = game_state.is_maximising_player();
        let mut value: i32 = if maximising {
            i32::MIN
        } else {
            i32::MAX
        };
        let mut i: usize = 0;
        while i < count
            invariant
                game_state.valid(),
                !game_state.finished(),
                depth > 0,
                maximising == game_state.maximising(),
                i <= count,
                count == current_cache@.len(),
                current_cache@ == game_state.successors(),
                remaining_cache@.len() == old(remaining_cache)@.len(),
                remaining_cache@.len() >= depth - 1,
                value == best_of_first(
                    no_oracle(),
                    false,
                    *game_state,
                    Some(depth as nat),
                    i as nat,
                ),
            decreases count - i,
        {
            proof {
                game_state.lemma_successor(i as int);
            }
            let found = Self::minimax(&current_cache[i], depth - 1, remaining_cache);
            if maximising {
                if found > value {
                    value = found;
                }
            } else {
                if found < value {
                    value = found;
                }
            }
            i += 1;
        }
        value
    }

    /// Alpha-beta search, `depth` plies deep, in the window from `alpha` to
    /// `beta`.
    pub fn alphabeta(
        game_state: &T,
        depth: u32,
        alpha: i32,
        beta: i32,
        game_state_cache: &mut [Vec<T>],
    ) -> (value: i32)
        requires
            game_state.valid(),
            old(game_state_cache)@.len() >= depth,
        ensures
            value == alphabeta_value(*game_state, depth as nat, alpha as int, beta as int),
            final(game_state_cache)@.len() == old(game_state_cache)@.len(),
        decreases depth, 1nat,
    {
        if depth == 0 || game_state.is_game_over() {
            return game_state.heuristic();
        }
        let (current_cache, remaining_cache) = game_state_cache.split_at_mut(1);
        Self::alphabeta_children(
            game_state,
            depth,
            alpha,
            beta,
            &mut current_cache[0],
            remaining_cache,
        )
    }

    /// Alpha-beta search over the successors of `game_state`.
    fn alphabeta_children(
        game_state: &T,
        depth: u32,
        mut alpha: i32,
        mut beta: i32,
        current_cache: &mut Vec<T>,
        remaining_cache: &mut [Vec<T>],
    ) -> (value: i32)
        requires
            game_state.valid(),
            !game_state.finished(),
            depth > 0,
            old(remaining_cache)@.len() >= depth - 1,
        ensures
            value == pruned_from(
                no_oracle(),
                false,
                *game_state,
                Some(depth as nat),
                alpha as int,
                beta as int,
                0,
                worst(game_state.maximising()),
            ),
            final(remaining_cache)@.len() == old(remaining_cache)@.len(),
        decreases depth, 0nat,
    {
        game_state.get_children(current_cache);
        let count = current_cache.len();
        let maximising = game_state.is_maximising_player();
        let mut value: i32 = if maximising {
            i32::MIN
        } else {
            i32::MAX
        };
        let ghost goal = pruned_from(
            no_oracle(),
            false,
            *game_state,
            Some(depth as nat),
            alpha as int,
            beta as int,
            0,
            worst(game_state.maximising()),
        );
        let mut i: usize = 0;
        while i < count
            invariant_except_break
                goal == pruned_from(
                    no_oracle(),
                    false,
                    *game_state,
                    Some(depth as nat),
                    alpha as int,
                    beta as int,
                    i as nat,
                    value as int,
                ),
            invariant
                game_state.valid(),
                !game_state.finished(),
                depth > 0,
                maximising == game_state.maximising(),
                i <= count,
                count == current_cache@.len(),
                current_cache@ == game_state.successors(),
                remaining_cache@.len() == old(remaining_cache)@.len(),
                remaining_cache@.len() >= depth - 1,
            ensures
                value == goal,
            decreases count - i,
        {
            proof {
                game_state.lemma_successor(i as int);
            }
            let found = Self::alphabeta(&current_cache[i], depth - 1, alpha, beta, remaining_cache);
            if maximising {
                if found > value {
                    value = found;
                }
                if value >= beta {
                    break;
                }
                if value > alpha {
                    alpha = value;
                }
            } else {
                if found < value {
                    value = found;
                }
                if value <= alpha {
                    break;
                }
                if value < beta {
                    beta = value;
                }
            }
            i += 1;
        }
        value
    }

    /// Alpha-beta search with memory, `depth` plies deep, of a state that lies
    /// `self.max_depth - depth` plies below the root.
    pub fn alphabeta_with_memory(
        &mut self,
        game_state: &T,
        depth: u32,
        alpha: i32,
        beta: i32,
        game_state_cache: &mut [Vec<T>],
    ) -> (value: i32)
        requires
            old(self).transposition_table.wf(),
            old(self).endgames_table.ready(),
            old(self).endgames_table.serves(game_state),
            game_state.valid(),
            depth <= old(self).max_depth,
            old(self).endgames_table.spec_lookup(game_state) is Some || old(game_state_cache)@.len()
                > depth,
        ensures
            (value as int, final(self).transposition_table@) == search_with_memory(
                oracle_of(&**old(self).endgames_table),
                old(self).transposition_table@,
                old(self).transposition_table.max_depth,
                *game_state,
                Some(depth as nat),
                (old(self).max_depth - depth) as nat,
                alpha as int,
                beta as int,
            ),
            final(self).transposition_table.wf(),
            final(self).same_setup(old(self)),
            final(game_state_cache)@.len() == old(game_state_cache)@.len(),
    {
        let plies = self.max_depth - depth;
        Self::remembering(
            &mut self.transposition_table,
            &**self.endgames_table,
            game_state,
            Some(depth),
            plies,
            alpha,
            beta,
            game_state_cache,
        )
    }

    /// Alpha-beta search with memory to the end of the game, of a state that
    /// lies `depth` plies below the root.
    pub fn alphabeta_with_memory_no_depth_limit(
        &mut self,
        game_state: &T,
        depth: u32,
        alpha: i32,
        beta: i32,
        game_state_cache: &mut [Vec<T>],
    ) -> (value: i32)
        requires
            old(self).transposition_table.wf(),
            old(self).endgames_table.ready(),
            old(self).endgames_table.serves(game_state),
            game_state.valid(),
            old(self).endgames_table.spec_lookup(game_state) is Some || has_room(
                *game_state,
                None,
                depth,
                old(game_state_cache)@.len(),
            ),
        ensures
            (value as int, final(self).transposition_table@) == search_with_memory(
                oracle_of(&**old(self).endgames_table),
                old(self).transposition_table@,
                old(self).transposition_table.max_depth,
                *game_state,
                None,
                depth as nat,
                alpha as int,
                beta as int,
            ),
            final(self).transposition_table.wf(),
            final(self).same_setup(old(self)),
            final(game_state_cache)@.len() == old(game_state_cache)@.len(),
    {
        Self::remembering(
            &mut self.transposition_table,
            &**self.endgames_table,
            game_state,
            None,
            depth,
            alpha,
            beta,
            game_state_cache,
        )
    }

    /// Alpha-beta search with memory of `game_state`, `plies` below the root,
    /// `depth` plies deep or, without a depth, to the end of the game.
    pub(crate) fn remembering(
        transposition_table: &mut TranspositionTable<T>,
        endgames_table: &E,
        game_state: &T,
        depth: Option<u32>,
        plies: u32,
        mut alpha: i32,
        mut beta: i32,
        game_state_cache: &mut [Vec<T>],
    ) -> (value: i32)
        requires
            old(transposition_table).wf(),
            endgames_table.ready(),
            endgames_table.serves(game_state),
            game_state.valid(),
            endgames_table.spec_lookup(game_state) is Some || has_room(
                *game_state,
                depth,
                plies,
                old(game_state_cache)@.len(),
            ),
        ensures
            (value as int, final(transposition_table)@) == search_with_memory(
                oracle_of(endgames_table),
                old(transposition_table)@,
                old(transposition_table).max_depth,
                *game_state,
                limit_of(depth),
                plies as nat,
                alpha as int,
                beta as int,
            ),
            final(transposition_table).wf(),
            final(transposition_table).max_depth == old(transposition_table).max_depth,
            final(game_state_cache)@.len() == old(game_state_cache)@.len(),
        decreases crate::minimax::values::plies_left(*game_state, limit_of(depth)), 1nat,
    {
        let near_root = plies <= transposition_table.max_depth;
        let value;
        let mut recorded_depth: u32 = match depth {
            Some(depth) => depth,
            None => u32::MAX,
        };
        if let Some(eval) = endgames_table.lookup(game_state) {
            value = eval;
            alpha = eval;
            beta = eval;
            recorded_depth = u32::MAX;
        } else {
            if near_root {
                if let Some(depth) = depth {
                    if let Some(lookup_result) = transposition_table.lookup(game_state) {
                        if lookup_result.lower_bound.depth >= depth {
                            if lookup_result.lower_bound.bound >= beta {
                                return lookup_result.lower_bound.bound;
                            }
                            if lookup_result.lower_bound.bound > alpha {
                                alpha = lookup_result.lower_bound.bound;
                            }
                        }
                        if lookup_result.upper_bound.depth >= depth {
                            if lookup_result.upper_bound.bound <= alpha {
                                return lookup_result.upper_bound.bound;
                            }
                            if lookup_result.upper_bound.bound < beta {
                                beta = lookup_result.upper_bound.bound;
                            }
                        }
                    }
                }
            }
            let (current_cache, future_cache) = game_state_cache.split_at_mut(1);
            let at_limit = match depth {
                Some(depth) => depth == 0,
                None => false,
            };
            if at_limit || game_state.is_game_over() {
                value = game_state.heuristic();
            } else {
                value =
                Self::remembering_children(
                    transposition_table,
                    endgames_table,
                    game_state,
                    depth,
                    plies,
                    alpha,
                    beta,
                    &mut current_cache[0],
                    future_cache,
                );
            }
        }
        if near_root {
            let transposition_table_element = transposition_table.get(game_state);
            if value <= alpha {
                transposition_table_element.upper_bound.bound = value;
                transposition_table_element.upper_bound.depth = recorded_depth;
            }
            if value > alpha && value < beta {
                transposition_table_element.lower_bound.bound = value;
                transposition_table_element.lower_bound.depth = recorded_depth;
                transposition_table_element.upper_bound.bound = value;
                transposition_table_element.upper_bound.depth = recorded_depth;
            }
            if value >= beta {
                transposition_table_element.lower_bound.bound = value;
                transposition_table_element.lower_bound.depth = recorded_depth;
            }
        }
        value
    }

    /// Alpha-beta search with memory over the successors of `game_state`.
    fn remembering_children(
        transposition_table: &mut TranspositionTable<T>,
        endgames_table: &E,
        game_state: &T,
        depth: Option<u32>,
        plies: u32,
        mut alpha: i32,
        mut beta: i32,
        current_cache: &mut Vec<T>,
        future_cache: &mut [Vec<T>],
    ) -> (value: i32)
        requires
            old(transposition_table).wf(),
            endgames_table.ready(),
            endgames_table.serves(game_state),
            game_state.valid(),
            !game_state.finished(),
            depth != Some(0u32),
            has_room(*game_state, depth, plies, old(future_cache)@.len() + 1),
        ensures
            (value as int, final(transposition_table)@) == children_with_memory(
                oracle_of(endgames_table),
                old(transposition_table)@,
                old(transposition_table).max_depth,
                *game_state,
                limit_of(depth),
                plies as nat,
                alpha as int,
                beta as int,
                0,
                worst(game_state.maximising()),
            ),
            final(transposition_table).wf(),
            final(transposition_table).max_depth == old(transposition_table).max_depth,
            final(future_cache)@.len() == old(future_cache)@.len(),
        decreases crate::minimax::values::plies_left(*game_state, limit_of(depth)), 0nat,
    {
        game_state.get_children(current_cache);
        let count = current_cache.len();
        let maximising = game_state.is_maximising_player();
        let deeper = match depth {
            Some(depth) => Some((depth - 1) as u32),
            None => None,
        };
        let mut value: i32 = if maximising {
            i32::MIN
        } else {
            i32::MAX
        };
        let ghost oracle = oracle_of(endgames_table);
        let ghost reach = transposition_table.max_depth;
        let ghost goal = children_with_memory(
            oracle,
            transposition_table@,
            reach,
            *game_state,
            limit_of(depth),
            plies as nat,
            alpha as int,
            beta as int,
            0,
            worst(game_state.maximising()),
        );
        let mut i: usize = 0;
        while i < count
            invariant_except_break
                goal == children_with_memory(
                    oracle,
                    transposition_table@,
                    reach,
                    *game_state,
                    limit_of(depth),
                    plies as nat,
                    alpha as int,
                    beta as int,
                    i as nat,
                    value as int,
                ),
            invariant
                transposition_table.wf(),
                endgames_table.ready(),
                endgames_table.serves(game_state),
                oracle == oracle_of(endgames_table),
                reach == transposition_table.max_depth,
                reach == old(transposition_table).max_depth,
                game_state.valid(),
                !game_state.finished(),
                depth != Some(0u32),
                deeper == (match depth {
                    Some(depth) => Some((depth - 1) as u32),
                    None => None,
                }),
                has_room(*game_state, depth, plies, future_cache@.len() + 1),
                maximising == game_state.maximising(),
                i <= count,
                count == current_cache@.len(),
                current_cache@ == game_state.successors(),
                future_cache@.len() == old(future_cache)@.len(),
            ensures
                (value as int, transposition_table@) == goal,
                transposition_table.wf(),
                transposition_table.max_depth == old(transposition_table).max_depth,
                future_cache@.len() == old(future_cache)@.len(),
            decreases count - i,
        {
            proof {
                game_state.lemma_successor(i as int);
                endgames_table.lemma_serves_successors(*game_state, i as int);
            }
            let found = Self::remembering(
                transposition_table,
                endgames_table,
                &current_cache[i],
                deeper,
                plies + 1,
                alpha,
                beta,
                future_cache,
            );
            if maximising {
                if found > value {
                    value = found;
                }
                if value >= beta {
                    break;
                }
                if value > alpha {
                    alpha = value;
                }
            } else {
                if found < value {
                    value = found;
                }
                if value <= alpha {
                    break;
                }
                if value < beta {
                    beta = value;
                }
            }
            i += 1;
        }
        value
    }

    /// The MTD(f) driver without memory: zero-window alpha-beta searches of the
    /// start state, `depth` plies deep, around `guess`, until the bounds that
    /// they establish meet.
    pub fn mtdf_no_memory(&self, mut guess: i32, depth: u32, game_state_cache: &mut [Vec<T>]) -> (value:
        i32)
        requires
            self.start_game_state.valid(),
            old(game_state_cache)@.len() >= depth,
        ensures
            value == minimax_value(self.start_game_state, depth as nat),
            final(game_state_cache)@.len() == old(game_state_cache)@.len(),
    {
        let mut beta: i32;
        let mut lower_bound = i32::MIN;
        let mut upper_bound = i32::MAX;
        let ghost exact = minimax_value(self.start_game_state, depth as nat);
        proof {
            lemma_minimax_in_range(no_oracle(), false, self.start_game_state, Some(depth as nat));
        }
        while lower_bound < upper_bound
            invariant
                self.start_game_state.valid(),
                game_state_cache@.len() == old(game_state_cache)@.len(),
                game_state_cache@.len() >= depth,
                exact == minimax_value(self.start_game_state, depth as nat),
                lower_bound <= exact <= upper_bound,
                guess <= upper_bound,
                guess == lower_bound || guess == upper_bound || (lower_bound == i32::MIN
                    && upper_bound == i32::MAX),
            decreases upper_bound - lower_bound,
        {
            beta = if guess > lower_bound + 1 {
                guess
            } else {
                lower_bound + 1
            };
            proof {
                lemma_pruned_brackets(
                    no_oracle(),
                    false,
                    self.start_game_state,
                    Some(depth as nat),
                    beta - 1,
                    beta as int,
                );
            }
            guess = Self::alphabeta(&self.start_game_state, depth, beta - 1, beta, game_state_cache);
            if guess < beta {
                upper_bound = guess;
            } else {
                lower_bound = guess;
            }
        }
        guess
    }

    /// The MTD(f) driver with memory, `depth` plies deep.
    pub fn mtdf_with_memory(&mut self, mut guess: i32, depth: u32, game_state_cache: &mut [Vec<T>]) -> (value:
        i32)
        requires
            old(self).wf(),
            depth <= old(self).max_depth,
            old(game_state_cache)@.len() > depth,
        ensures
            (value as int, final(self).transposition_table@) == mtdf_with_memory_from(
                oracle_of(&**old(self).endgames_table),
                old(self).transposition_table@,
                old(self).transposition_table.max_depth,
                old(self).start_game_state,
                Some(depth as nat),
                (old(self).max_depth - depth) as nat,
                guess as int,
                i32::MIN as int,
                i32::MAX as int,
            ),
            final(self).wf(),
            final(self).same_setup(old(self)),
            final(game_state_cache)@.len() == old(game_state_cache)@.len(),
    {
        let mut beta: i32;
        let mut lower_bound = i32::MIN;
        let mut upper_bound = i32::MAX;
        let start = self.start_game_state;
        let plies = self.max_depth - depth;
        let ghost oracle = oracle_of(&**self.endgames_table);
        let ghost reach = self.transposition_table.max_depth;
        let ghost goal = mtdf_with_memory_from(
            oracle,
            self.transposition_table@,
            reach,
            start,
            Some(depth as nat),
            plies as nat,
            guess as int,
            i32::MIN as int,
            i32::MAX as int,
        );
        while lower_bound < upper_bound
            invariant
                self.wf(),
                self.same_setup(old(self)),
                start == self.start_game_state,
                plies == self.max_depth - depth,
                depth <= self.max_depth,
                oracle == oracle_of(&**self.endgames_table),
                reach == self.transposition_table.max_depth,
                game_state_cache@.len() == old(game_state_cache)@.len(),
                game_state_cache@.len() > depth,
                lower_bound < upper_bound ==> guess <= upper_bound,
                goal == mtdf_with_memory_from(
                    oracle,
                    self.transposition_table@,
                    reach,
                    start,
                    Some(depth as nat),
                    plies as nat,
                    guess as int,
                    lower_bound as int,
                    upper_bound as int,
                ),
            decreases
                    (if upper_bound > lower_bound {
                        upper_bound - lower_bound
                    } else {
                        0
                    }),
        {
            beta = if guess > lower_bound + 1 {
                guess
            } else {
                lower_bound + 1
            };
            guess =
            Self::remembering(
                &mut self.transposition_table,
                &**self.endgames_table,
                &start,
                Some(depth),
                plies,
                beta - 1,
                beta,
                game_state_cache,
            );
            if guess < beta {
                upper_bound = guess;
            } else {
                lower_bound = guess;
            }
        }
        guess
    }

    /// The MTD(f) driver with memory that plays every line to its end: the
    /// value of the start state when the endgame table's word is taken for the
    /// states that it knows.
    pub fn mtdf_with_memory_no_depth_limit(
        &mut self,
        mut guess: i32,
        game_state_cache: &mut [Vec<T>],
    ) -> (value: i32)
        requires
            old(self).wf(),
            has_room(old(self).start_game_state, None, 0, old(game_state_cache)@.len()),
        ensures
            value == minimax_with(
                oracle_of(&**old(self).endgames_table),
                true,
                old(self).start_game_state,
                None,
            ),
            (value as int, final(self).transposition_table@) == mtdf_with_memory_from(
                oracle_of(&**old(self).endgames_table),
                old(self).transposition_table@,
                old(self).transposition_table.max_depth,
                old(self).start_game_state,
                None,
                0,
                guess as int,
                i32::MIN as int,
                i32::MAX as int,
            ),
            final(self).wf(),
            final(self).same_setup(old(self)),
            final(game_state_cache)@.len() == old(game_state_cache)@.len(),
    {
        let mut beta: i32;
        let mut lower_bound = i32::MIN;
        let mut upper_bound = i32::MAX;
        let start = self.start_game_state;
        let ghost oracle = oracle_of(&**self.endgames_table);
        let ghost reach = self.transposition_table.max_depth;
        let ghost exact = minimax_with(oracle, true, start, None);
        let ghost goal = mtdf_with_memory_from(
            oracle,
            self.transposition_table@,
            reach,
            start,
            None,
            0,
            guess as int,
            i32::MIN as int,
            i32::MAX as int,
        );
        proof {
            lemma_minimax_in_range(oracle, true, start, None);
        }
        while lower_bound < upper_bound
            invariant
                self.wf(),
                self.same_setup(old(self)),
                start == self.start_game_state,
                oracle == oracle_of(&**self.endgames_table),
                reach == self.transposition_table.max_depth,
                game_state_cache@.len() == old(game_state_cache)@.len(),
                has_room(start, None, 0, game_state_cache@.len()),
                exact == minimax_with(oracle, true, start, None),
                lower_bound <= exact <= upper_bound,
                guess <= upper_bound,
                guess == lower_bound || guess == upper_bound || (lower_bound == i32::MIN
                    && upper_bound == i32::MAX),
                goal == mtdf_with_memory_from(
                    oracle,
                    self.transposition_table@,
                    reach,
                    start,
                    None,
                    0,
                    guess as int,
                    lower_bound as int,
                    upper_bound as int,
                ),
            decreases upper_bound - lower_bound,
        {
            beta = if guess > lower_bound + 1 {
                guess
            } else {
                lower_bound + 1
            };
            proof {
                lemma_pruned_brackets(oracle, true, start, None, beta - 1, beta as int);
                lemma_unlimited_value(
                    oracle,
                    self.transposition_table@,
                    reach,
                    start,
                    0,
                    beta - 1,
                    beta as int,
                );
            }
            guess =
            Self::remembering(
                &mut self.transposition_table,
                &**self.endgames_table,
                &start,
                None,
                0,
                beta - 1,
                beta,
                game_state_cache,
            );
            if guess < beta {
                upper_bound = guess;
            } else {
                lower_bound = guess;
            }
        }
        guess
    }

    /// Alpha-beta search to the end of the game, with the endgame table's word
    /// taken for the states that it knows and that are not over.
    pub fn alphabeta_no_depth_limit(
        game_state: &T,
        mut alpha: i32,
        mut beta: i32,
        endgames_table: &E,
    ) -> (value: i32)
        requires
            endgames_table.ready(),
            endgames_table.serves(game_state),
            game_state.valid(),
        ensures
            value == pruned_with(
                oracle_of(endgames_table),
                false,
                *game_state,
                None,
                alpha as int,
                beta as int,
            ),
        decreases game_state.horizon(),
    {
        if game_state.is_game_over() {
            return game_state.heuristic();
        }
        if let Some(eval) = endgames_table.lookup(game_state) {
            return eval;
        }
        let mut current_cache = game_state.get_children_cache();
        let children = game_state.get_children(&mut current_cache);
        let count = children.len();
        let maximising = game_state.is_maximising_player();
        let mut value: i32 = if maximising {
            i32::MIN
        } else {
            i32::MAX
        };
        let ghost oracle = oracle_of(endgames_table);
        let ghost goal = pruned_from(
            oracle,
            false,
            *game_state,
            None,
            alpha as int,
            beta as int,
            0,
            worst(game_state.maximising()),
        );
        let mut i: usize = 0;
        while i < count
            invariant_except_break
                goal == pruned_from(
                    oracle,
                    false,
                    *game_state,
                    None,
                    alpha as int,
                    beta as int,
                    i as nat,
                    value as int,
                ),
            invariant
                endgames_table.ready(),
                endgames_table.serves(game_state),
                oracle == oracle_of(endgames_table),
                game_state.valid(),
                !game_state.finished(),
                oracle(*game_state) is None,
                maximising == game_state.maximising(),
                i <= count,
                count == children@.len(),
                children@ == game_state.successors(),
            ensures
                value == goal,
            decreases count - i,
        {
            proof {
                game_state.lemma_successor(i as int);
                endgames_table.lemma_serves_successors(*game_state, i as int);
            }
            let found = Self::alphabeta_no_depth_limit(&children[i], alpha, beta, endgames_table);
            if maximising {
                if found > value {
                    value = found;
                }
                if value >= beta {
                    break;
                }
                if value > alpha {
                    alpha = value;
                }
            } else {
                if found < value {
                    value = found;
                }
                if value <= alpha {
                    break;
                }
                if value < beta {
                    beta = value;
                }
            }
            i += 1;
        }
        value
    }

    /// Alpha-beta search to the end of the game that consults the endgame
    /// table first and remembers nothing.
    pub fn test(
        &mut self,
        game_state: &T,
        alpha: i32,
        beta: i32,
        game_state_cache: &mut [Vec<T>],
    ) -> (value: i32)
        requires
            old(self).endgames_table.ready(),
            old(self).endgames_table.serves(game_state),
            game_state.valid(),
            old(self).endgames_table.spec_lookup(game_state) is Some || old(game_state_cache)@.len()
                > game_state.horizon(),
        ensures
            value == pruned_with(
                oracle_of(&**old(self).endgames_table),
                true,
                *game_state,
                None,
                alpha as int,
                beta as int,
            ),
            *final(self) == *old(self),
            final(game_state_cache)@.len() == old(game_state_cache)@.len(),
    {
        Self::probing(self.endgames_table, game_state, alpha, beta, game_state_cache)
    }

    /// Alpha-beta search to the end of the game that consults `endgames_table`
    /// first.
    fn probing(
        endgames_table: &Rc<E>,
        game_state: &T,
        alpha: i32,
        beta: i32,
        game_state_cache: &mut [Vec<T>],
    ) -> (value: i32)
        requires
            endgames_table.ready(),
            endgames_table.serves(game_state),
            game_state.valid(),
            endgames_table.spec_lookup(game_state) is Some || old(game_state_cache)@.len()
                > game_state.horizon(),
        ensures
            value == pruned_with(
                oracle_of(&**endgames_table),
                true,
                *game_state,
                None,
                alpha as int,
                beta as int,
            ),
            final(game_state_cache)@.len() == old(game_state_cache)@.len(),
        decreases game_state.horizon(), 1nat,
    {
        if let Some(eval) = endgames_table.lookup(game_state) {
            return eval;
        }
        if game_state.is_game_over() {
            return game_state.heuristic();
        }
        let (current_cache, future_cache) = game_state_cache.split_at_mut(1);
        Self::probing_children(
            endgames_table,
            game_state,
            alpha,
            beta,
            &mut current_cache[0],
            future_cache,
        )
    }

    /// Alpha-beta search to the end of the game over the successors of
    /// `game_state`.
    fn probing_children(
        endgames_table: &Rc<E>,
        game_state: &T,
        mut alpha: i32,
        mut beta: i32,
        current_cache: &mut Vec<T>,
        future_cache: &mut [Vec<T>],
    ) -> (value: i32)
        requires
            endgames_table.ready(),
            endgames_table.serves(game_state),
            game_state.valid(),
            !game_state.finished(),
            endgames_table.spec_lookup(game_state) is None,
            old(future_cache)@.len() + 1 > game_state.horizon(),
        ensures
            value == pruned_from(
                oracle_of(&**endgames_table),
                true,
                *game_state,
                None,
                alpha as int,
                beta as int,
                0,
                worst(game_state.maximising()),
            ),
            final(future_cache)@.len() == old(future_cache)@.len(),
        decreases game_state.horizon(), 0nat,
    {
        game_state.get_children(current_cache);
        let count = current_cache.len();
        let maximising = game_state.is_maximising_player();
        let mut value: i32 = if maximising {
            i32::MIN
        } else {
            i32::MAX
        };
        let ghost oracle = oracle_of(&**endgames_table);
        let ghost goal = pruned_from(
            oracle,
            true,
            *game_state,
            None,
            alpha as int,
            beta as int,
            0,
            worst(game_state.maximising()),
        );
        let mut i: usize = 0;
        while i < count
            invariant_except_break
                goal == pruned_from(
                    oracle,
                    true,
                    *game_state,
                    None,
                    alpha as int,
                    beta as int,
                    i as nat,
                    value as int,
                ),
            invariant
                endgames_table.ready(),
                endgames_table.serves(game_state),
                oracle == oracle_of(&**endgames_table),
                game_state.valid(),
                !game_state.finished(),
                oracle(*game_state) is None,
                maximising == game_state.maximising(),
                i <= count,
                count == current_cache@.len(),
                current_cache@ == game_state.successors(),
                future_cache@.len() == old(future_cache)@.len(),
                future_cache@.len() + 1 > game_state.horizon(),
            ensures
                value == goal,
                future_cache@.len() == old(future_cache)@.len(),
            decreases count - i,
        {
            proof {
                game_state.lemma_successor(i as int);
                endgames_table.lemma_serves_successors(*game_state, i as int);
            }
            let found = Self::probing(endgames_table, &current_cache[i], alpha, beta, future_cache);
            if maximising {
                if found > value {
                    value = found;
                }
                if value >= beta {
                    break;
                }
                if value > alpha {
                    alpha = value;
                }
            } else {
                if found < value {
                    value = found;
                }
                if value <= alpha {
                    break;
                }
                if value < beta {
                    beta = value;
                }
            }
            i += 1;
        }
        value
    }

    /// The MTD(f) driver around `test`: the value of the start state when the
    /// endgame table's word is taken for the states that it knows.
    pub fn mtdf_test(&mut self, mut guess: i32, game_state_cache: &mut [Vec<T>]) -> (value: i32)
        requires
            old(self).wf(),
            old(game_state_cache)@.len() > old(self).start_game_state.horizon(),
        ensures
            value == minimax_with(
                oracle_of(&**old(self).endgames_table),
                true,
                old(self).start_game_state,
                None,
            ),
            *final(self) == *old(self),
            final(game_state_cache)@.len() == old(game_state_cache)@.len(),
    {
        let mut beta: i32;
        let mut lower_bound = i32::MIN;
        let mut upper_bound = i32::MAX;
        let start = self.start_game_state;
        let ghost oracle = oracle_of(&**self.endgames_table);
        let ghost exact = minimax_with(oracle, true, start, None);
        proof {
            lemma_minimax_in_range(oracle, true, start, None);
        }
        while lower_bound < upper_bound
            invariant
                self.wf(),
                *self == *old(self),
                start == self.start_game_state,
                oracle == oracle_of(&**self.endgames_table),
                game_state_cache@.len() == old(game_state_cache)@.len(),
                game_state_cache@.len() > start.horizon(),
                exact == minimax_with(oracle, true, start, None),
                lower_bound <= exact <= upper_bound,
                guess <= upper_bound,
                guess == lower_bound || guess == upper_bound || (lower_bound == i32::MIN
                    && upper_bound == i32::MAX),
            decreases upper_bound - lower_bound,
        {
            beta = if guess > lower_bound + 1 {
                guess
            } else {
                lower_bound + 1
            };
            proof {
                lemma_pruned_brackets(oracle, true, start, None, beta - 1, beta as int);
            }
            guess = self.test(&start, beta - 1, beta, game_state_cache);
            if guess < beta {
                upper_bound = guess;
            } else {
                lower_bound = guess;
            }
        }
        guess
    }
}

} // verus!
