use crate::minimax::game_state::GameLaws;
use crate::minimax::transposition_table::{Bound, TranspositionTableElement};
use crate::minimax::values::{
    below, better, is_leaf, no_oracle, plies_left, pruned_from, pruned_with, worst, Limit, Oracle,
};
use vstd::prelude::*;

verus! {

/// What a search remembers: for each state that it has met near the root, the
/// bounds that it has found.
pub type Memory<T> = Map<T, TranspositionTableElement>;

/// What the memory says of `state`; nothing, if it does not hold it.
pub open spec fn known<T>(memory: Memory<T>, state: T) -> TranspositionTableElement {
    if memory.contains_key(state) {
        memory[state]
    } else {
        TranspositionTableElement::unknown()
    }
}

/// What the memory does for a search that comes to a state: it settles the
/// value, or it leaves a window to search.
pub enum Probe {
    Cut(int),
    Window(int, int),
}

/// A search of `depth` remaining plies in the window from `alpha` to `beta`
/// consults `element`. A bound counts if it comes from a search at least as
/// deep. A lower bound at or above `beta`, or an upper bound at or below
/// `alpha`, settles the value; otherwise the bounds that count narrow the
/// window.
pub open spec fn probe(
    element: TranspositionTableElement,
    depth: nat,
    alpha: int,
    beta: int,
) -> Probe {
    let lower_counts = element.lower_bound.depth >= depth;
    let upper_counts = element.upper_bound.depth >= depth;
    if lower_counts && element.lower_bound.bound >= beta {
        Probe::Cut(element.lower_bound.bound as int)
    } else {
        let raised = if lower_counts {
            better(true, alpha, element.lower_bound.bound as int)
        } else {
            alpha
        };
        if upper_counts && element.upper_bound.bound <= raised {
            Probe::Cut(element.upper_bound.bound as int)
        } else {
            Probe::Window(
                raised,
                if upper_counts {
                    better(false, beta, element.upper_bound.bound as int)
                } else {
                    beta
                },
            )
        }
    }
}

/// The element after a search of `depth` remaining plies in the window from
/// `alpha` to `beta` has found `value`: a value at or below the window is a new
/// upper bound, a value at or above it a new lower bound, and a value inside
/// it is both.
pub open spec fn recorded(
    element: TranspositionTableElement,
    value: int,
    alpha: int,
    beta: int,
    depth: u32,
) -> TranspositionTableElement {
    let found = Bound { bound: value as i32, depth };
    let exact = alpha < value < beta;
    TranspositionTableElement {
        lower_bound: if value >= beta || exact {
            found
        } else {
            element.lower_bound
        },
        upper_bound: if value <= alpha || exact {
            found
        } else {
            element.upper_bound
        },
    }
}

/// The memory after `value` was recorded for `state`, if the state is near
/// enough to the root to be remembered.
pub open spec fn remember<T>(
    memory: Memory<T>,
    near_root: bool,
    state: T,
    value: int,
    alpha: int,
    beta: int,
    depth: u32,
) -> Memory<T> {
    if near_root {
        memory.insert(state, recorded(known(memory, state), value, alpha, beta, depth))
    } else {
        memory
    }
}

/// The depth under which a search with `limit` records what it finds: the
/// remaining depth, or the greatest depth there is when it plays every line to
/// its end.
pub open spec fn recorded_depth(limit: Limit) -> u32 {
    match limit {
        Some(depth) => depth as u32,
        None => u32::MAX,
    }
}

/// Alpha-beta search with memory: the value found for `state`, `plies` below
/// the root, and what the search remembers afterwards.
///
/// The oracle is asked first, and its word is recorded as exact for all
/// depths. A search with a depth limit then consults the memory, which may
/// settle the value or narrow the window. What the search then finds is
/// recorded under the window that it searched. Only states at most `reach`
/// plies from the root are looked up and recorded.
pub open spec fn search_with_memory<T: GameLaws>(
    oracle: Oracle<T>,
    memory: Memory<T>,
    reach: u32,
    state: T,
    limit: Limit,
    plies: nat,
    alpha: int,
    beta: int,
) -> (int, Memory<T>)
    decreases plies_left(state, limit), 1nat, 0nat,
{
    let near_root = plies <= reach;
    match oracle(state) {
        Some(value) => (
            value,
            remember(memory, near_root, state, value, value, value, u32::MAX),
        ),
        None => {
            let consulted = if near_root && limit is Some && memory.contains_key(state) {
                probe(memory[state], limit->0, alpha, beta)
            } else {
                Probe::Window(alpha, beta)
            };
            match consulted {
                Probe::Cut(value) => (value, memory),
                Probe::Window(low, high) => {
                    let (value, after) = if is_leaf(no_oracle(), state, limit) {
                        (state.score(), memory)
                    } else {
                        children_with_memory(
                            oracle,
                            memory,
                            reach,
                            state,
                            limit,
                            plies,
                            low,
                            high,
                            0,
                            worst(state.maximising()),
                        )
                    };
                    (
                        value,
                        remember(after, near_root, state, value, low, high, recorded_depth(limit)),
                    )
                },
            }
        },
    }
}

/// Alpha-beta search with memory over the successors of `state` from the
/// `from`-th on, when `value` is the best found so far.
pub open spec fn children_with_memory<T: GameLaws>(
    oracle: Oracle<T>,
    memory: Memory<T>,
    reach: u32,
    state: T,
    limit: Limit,
    plies: nat,
    alpha: int,
    beta: int,
    from: nat,
    value: int,
) -> (int, Memory<T>)
    decreases plies_left(state, limit), 0nat, state.successors().len() - from,
{
    if from >= state.successors().len() || is_leaf(no_oracle(), state, limit) {
        (value, memory)
    } else {
        let child = state.successors()[from as int];
        let (found, after) = {
            proof {
                if limit is None {
                    state.lemma_successor(from as int);
                }
            }
            search_with_memory(oracle, memory, reach, child, below(limit), plies + 1, alpha, beta)
        };
        let best = better(state.maximising(), value, found);
        if state.maximising() {
            if best >= beta {
                (best, after)
            } else {
                children_with_memory(
                    oracle,
                    after,
                    reach,
                    state,
                    limit,
                    plies,
                    better(true, alpha, best),
                    beta,
                    from + 1,
                    best,
                )
            }
        } else {
            if best <= alpha {
                (best, after)
            } else {
                children_with_memory(
                    oracle,
                    after,
                    reach,
                    state,
                    limit,
                    plies,
                    alpha,
                    better(false, beta, best),
                    from + 1,
                    best,
                )
            }
        }
    }
}

/// A search with memory that plays every line to its end only writes to its
/// memory: the value that it finds is that of alpha-beta search without
/// memory.
pub proof fn lemma_unlimited_value<T: GameLaws>(
    oracle: Oracle<T>,
    memory: Memory<T>,
    reach: u32,
    state: T,
    plies: nat,
    alpha: int,
    beta: int,
)
    ensures
        search_with_memory(oracle, memory, reach, state, None, plies, alpha, beta).0 == pruned_with(
            oracle,
            true,
            state,
            None,
            alpha,
            beta,
        ),
    decreases state.horizon(), 1nat, 0nat,
{
    if oracle(state) is None && !is_leaf(no_oracle(), state, None) {
        lemma_unlimited_children_value(
            oracle,
            memory,
            reach,
            state,
            plies,
            alpha,
            beta,
            0,
            worst(state.maximising()),
        );
    }
}

/// The same of a search over the successors of a state that has tried the
/// first `from` of them.
proof fn lemma_unlimited_children_value<T: GameLaws>(
    oracle: Oracle<T>,
    memory: Memory<T>,
    reach: u32,
    state: T,
    plies: nat,
    alpha: int,
    beta: int,
    from: nat,
    value: int,
)
    requires
        oracle(state) is None,
    ensures
        children_with_memory(
            oracle,
            memory,
            reach,
            state,
            None,
            plies,
            alpha,
            beta,
            from,
            value,
        ).0 == pruned_from(oracle, true, state, None, alpha, beta, from, value),
    decreases state.horizon(), 0nat, state.successors().len() - from,
{
    if !(from >= state.successors().len() || is_leaf(no_oracle(), state, None)) {
        let child = state.successors()[from as int];
        state.lemma_successor(from as int);
        lemma_unlimited_value(oracle, memory, reach, child, plies + 1, alpha, beta);
        let (found, after) = search_with_memory(
            oracle,
            memory,
            reach,
            child,
            None,
            plies + 1,
            alpha,
            beta,
        );
        let best = better(state.maximising(), value, found);
        if state.maximising() {
            if best < beta {
                lemma_unlimited_children_value(
                    oracle,
                    after,
                    reach,
                    state,
                    plies,
                    better(true, alpha, best),
                    beta,
                    from + 1,
                    best,
                );
            }
        } else {
            if best > alpha {
                lemma_unlimited_children_value(
                    oracle,
                    after,
                    reach,
                    state,
                    plies,
                    alpha,
                    better(false, beta, best),
                    from + 1,
                    best,
                );
            }
        }
    }
}

/// The MTD(f) driver with memory: zero-window searches around `guess` until
/// the bounds `lower` and `upper` that they establish meet; the value found
/// last, and what the searches remember.
pub open spec fn mtdf_with_memory_from<T: GameLaws>(
    oracle: Oracle<T>,
    memory: Memory<T>,
    reach: u32,
    state: T,
    limit: Limit,
    plies: nat,
    guess: int,
    lower: int,
    upper: int,
) -> (int, Memory<T>)
    decreases
            (if upper > lower {
                upper - lower
            } else {
                0
            }),
{
    if lower >= upper || guess > upper {
        (guess, memory)
    } else {
        let beta = better(true, guess, lower + 1);
        let (found, after) = search_with_memory(
            oracle,
            memory,
            reach,
            state,
            limit,
            plies,
            beta - 1,
            beta,
        );
        if found < beta {
            mtdf_with_memory_from(oracle, after, reach, state, limit, plies, found, lower, found)
        } else {
            mtdf_with_memory_from(oracle, after, reach, state, limit, plies, found, found, upper)
        }
    }
}

/// Iterative deepening: MTD(f) with memory at the depths `depth`, `depth + 2`
/// and so on up to `max_depth`, each search starting from the value that the
/// one before it found and from what it remembers. With `below_root`, a search
/// that stops short of `max_depth` counts its plies as if the root lay as many
/// plies below the root as it stops short.
pub open spec fn deepening_from<T: GameLaws>(
    oracle: Oracle<T>,
    memory: Memory<T>,
    reach: u32,
    state: T,
    below_root: bool,
    max_depth: nat,
    depth: nat,
    guess: int,
) -> (int, Memory<T>)
    decreases max_depth + 2 - depth,
{
    if depth > max_depth {
        (guess, memory)
    } else {
        let (found, after) = mtdf_with_memory_from(
            oracle,
            memory,
            reach,
            state,
            Some(depth),
            if below_root {
                (max_depth - depth) as nat
            } else {
                0
            },
            guess,
            i32::MIN as int,
            i32::MAX as int,
        );
        deepening_from(oracle, after, reach, state, below_root, max_depth, depth + 2, found)
    }
}

} // verus!
