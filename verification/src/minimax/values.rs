use crate::minimax::game_state::GameLaws;
use vstd::prelude::*;

verus! {

/// What a table of known values says of a state, if anything.
pub type Oracle<T> = spec_fn(T) -> Option<int>;

/// The oracle that knows nothing.
pub open spec fn no_oracle<T>() -> Oracle<T> {
    |state: T| None::<int>
}

/// How far a search goes: `Some(depth)` stops `depth` plies below the state
/// and takes the score there; `None` plays every line to its end.
pub type Limit = Option<nat>;

/// The limit that holds one ply further down.
pub open spec fn below(limit: Limit) -> Limit {
    match limit {
        Some(depth) => Some((depth - 1) as nat),
        None => None,
    }
}

/// What bounds the plies of a search from `state` under `limit`.
pub open spec fn plies_left<T: GameLaws>(state: T, limit: Limit) -> nat {
    match limit {
        Some(depth) => depth,
        None => state.horizon(),
    }
}

/// The value with which a player starts before any move is tried: the worst
/// that the score's type can say.
pub open spec fn worst(maximise: bool) -> int {
    if maximise {
        i32::MIN as int
    } else {
        i32::MAX as int
    }
}

/// The better of two values for the player who maximises or minimises.
pub open spec fn better(maximise: bool, a: int, b: int) -> int {
    if maximise {
        if a >= b {
            a
        } else {
            b
        }
    } else {
        if a <= b {
            a
        } else {
            b
        }
    }
}

/// The search goes no further than `state`: the oracle knows it, the game is
/// over, or the limit is reached. An unlimited search also stops at a state
/// that is not valid.
pub open spec fn is_leaf<T: GameLaws>(oracle: Oracle<T>, state: T, limit: Limit) -> bool {
    ||| oracle(state) is Some
    ||| state.finished()
    ||| limit == Some(0nat)
    ||| limit is None && !state.valid()
}

/// The value of a leaf. Where the oracle knows a state whose game is over,
/// `oracle_first` says whether its word or the score counts.
pub open spec fn leaf_value<T: GameLaws>(oracle: Oracle<T>, oracle_first: bool, state: T) -> int {
    match oracle(state) {
        Some(value) => if state.finished() && !oracle_first {
            state.score()
        } else {
            value
        },
        None => state.score(),
    }
}

/// The minimax value of `state`: the value of a leaf, or else the best of the
/// values of the successors for the player to move.
pub open spec fn minimax_with<T: GameLaws>(
    oracle: Oracle<T>,
    oracle_first: bool,
    state: T,
    limit: Limit,
) -> int
    decreases plies_left(state, limit), 1nat, 0nat,
{
    if is_leaf(oracle, state, limit) {
        leaf_value(oracle, oracle_first, state)
    } else {
        best_of_first(oracle, oracle_first, state, limit, state.successors().len())
    }
}

/// The best of the minimax values of the first `count` successors of `state`.
pub open spec fn best_of_first<T: GameLaws>(
    oracle: Oracle<T>,
    oracle_first: bool,
    state: T,
    limit: Limit,
    count: nat,
) -> int
    decreases plies_left(state, limit), 0nat, count,
{
    if count == 0 || count > state.successors().len() || is_leaf(oracle, state, limit) {
        worst(state.maximising())
    } else {
        let earlier = best_of_first(oracle, oracle_first, state, limit, (count - 1) as nat);
        let child = state.successors()[count - 1];
        let value = {
            proof {
                if limit is None {
                    state.lemma_successor(count - 1);
                }
            }
            minimax_with(oracle, oracle_first, child, below(limit))
        };
        better(state.maximising(), earlier, value)
    }
}

/// The value that alpha-beta search returns for `state` in the window from
/// `alpha` to `beta`.
pub open spec fn pruned_with<T: GameLaws>(
    oracle: Oracle<T>,
    oracle_first: bool,
    state: T,
    limit: Limit,
    alpha: int,
    beta: int,
) -> int
    decreases plies_left(state, limit), 1nat, 0nat,
{
    if is_leaf(oracle, state, limit) {
        leaf_value(oracle, oracle_first, state)
    } else {
        pruned_from(
            oracle,
            oracle_first,
            state,
            limit,
            alpha,
            beta,
            0,
            worst(state.maximising()),
        )
    }
}

/// What alpha-beta search returns once it has tried the first `from`
/// successors of `state`, found `value` the best so far, and narrowed the
/// window to `alpha` and `beta`: it stops at the first successor whose value
/// leaves the window on the mover's side.
pub open spec fn pruned_from<T: GameLaws>(
    oracle: Oracle<T>,
    oracle_first: bool,
    state: T,
    limit: Limit,
    alpha: int,
    beta: int,
    from: nat,
    value: int,
) -> int
    decreases plies_left(state, limit), 0nat, state.successors().len() - from,
{
    if from >= state.successors().len() || is_leaf(oracle, state, limit) {
        value
    } else {
        let child = state.successors()[from as int];
        let found = {
            proof {
                if limit is None {
                    state.lemma_successor(from as int);
                }
            }
            pruned_with(oracle, oracle_first, child, below(limit), alpha, beta)
        };
        let best = better(state.maximising(), value, found);
        if state.maximising() {
            if best >= beta {
                best
            } else {
                pruned_from(
                    oracle,
                    oracle_first,
                    state,
                    limit,
                    better(true, alpha, best),
                    beta,
                    from + 1,
                    best,
                )
            }
        } else {
            if best <= alpha {
                best
            } else {
                pruned_from(
                    oracle,
                    oracle_first,
                    state,
                    limit,
                    alpha,
                    better(false, beta, best),
                    from + 1,
                    best,
                )
            }
        }
    }
}

/// The minimax value of `state` searched `depth` plies deep, with the score
/// taken where the search stops.
pub open spec fn minimax_value<T: GameLaws>(state: T, depth: nat) -> int {
    minimax_with(no_oracle(), false, state, Some(depth))
}

/// The value that alpha-beta search returns for `state` searched `depth` plies
/// deep in the window from `alpha` to `beta`.
pub open spec fn alphabeta_value<T: GameLaws>(state: T, depth: nat, alpha: int, beta: int) -> int {
    pruned_with(no_oracle(), false, state, Some(depth), alpha, beta)
}

/// The value of the game from `state` when both players play every line to
/// its end.
pub open spec fn game_value<T: GameLaws>(state: T) -> int {
    minimax_with(no_oracle(), false, state, None)
}

} // verus!
