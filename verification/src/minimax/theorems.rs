use crate::minimax::game_state::GameLaws;
use crate::minimax::values::{
    alphabeta_value, below, best_of_first, better, is_leaf, minimax_value, minimax_with,
    plies_left, pruned_from, pruned_with, worst, Limit, Oracle,
};
use vstd::prelude::*;

verus! {

/// What a value `found` by a search in the window from `alpha` to `beta` says
/// of the `exact` value: at or below the window it bounds the exact value from
/// above, at or above the window from below, and inside the window it is
/// exact.
pub open spec fn brackets(found: int, exact: int, alpha: int, beta: int) -> bool {
    &&& found <= alpha ==> exact <= found
    &&& found >= beta ==> exact >= found
    &&& alpha < found < beta ==> exact == found
}

/// The best of the first successors is no better than the best of all.
pub proof fn lemma_best_of_first_grows<T: GameLaws>(
    oracle: Oracle<T>,
    oracle_first: bool,
    state: T,
    limit: Limit,
    count: nat,
    all: nat,
)
    requires
        count <= all <= state.successors().len(),
        !is_leaf(oracle, state, limit),
    ensures
        better(
            state.maximising(),
            best_of_first(oracle, oracle_first, state, limit, count),
            best_of_first(oracle, oracle_first, state, limit, all),
        ) == best_of_first(oracle, oracle_first, state, limit, all),
    decreases all - count,
{
    if count < all {
        lemma_best_of_first_grows(oracle, oracle_first, state, limit, count, (all - 1) as nat);
    }
}

/// Alpha-beta search brackets the minimax value: whatever window it is given,
/// the value that it returns is exact inside the window and a bound on the
/// minimax value outside of it.
pub proof fn lemma_pruned_brackets<T: GameLaws>(
    oracle: Oracle<T>,
    oracle_first: bool,
    state: T,
    limit: Limit,
    alpha: int,
    beta: int,
)
    requires
        i32::MIN <= alpha < beta <= i32::MAX,
    ensures
        brackets(
            pruned_with(oracle, oracle_first, state, limit, alpha, beta),
            minimax_with(oracle, oracle_first, state, limit),
            alpha,
            beta,
        ),
    decreases plies_left(state, limit), 1nat, 0nat,
{
    if !is_leaf(oracle, state, limit) {
        lemma_pruned_from_brackets(
            oracle,
            oracle_first,
            state,
            limit,
            alpha,
            beta,
            alpha,
            beta,
            0,
            worst(state.maximising()),
        );
    }
}

/// The state of an alpha-beta search that has tried the first `from`
/// successors without leaving the window: `value` is the best found, the
/// window from `alpha0` to `beta0` has been narrowed to `alpha` and `beta`, and
/// `value` bounds the best of those successors' minimax values, exactly so
/// once it lies inside the window.
pub open spec fn prune_state<T: GameLaws>(
    oracle: Oracle<T>,
    oracle_first: bool,
    state: T,
    limit: Limit,
    alpha0: int,
    beta0: int,
    alpha: int,
    beta: int,
    from: nat,
    value: int,
) -> bool {
    let so_far = best_of_first(oracle, oracle_first, state, limit, from);
    if state.maximising() {
        &&& beta == beta0
        &&& alpha == better(true, alpha0, value)
        &&& value < beta0
        &&& so_far <= value
        &&& value > alpha0 ==> so_far >= value
    } else {
        &&& alpha == alpha0
        &&& beta == better(false, beta0, value)
        &&& value > alpha0
        &&& so_far >= value
        &&& value < beta0 ==> so_far <= value
    }
}

/// An alpha-beta search in the state that `prune_state` describes brackets the
/// best of the minimax values of all successors.
proof fn lemma_pruned_from_brackets<T: GameLaws>(
    oracle: Oracle<T>,
    oracle_first: bool,
    state: T,
    limit: Limit,
    alpha0: int,
    beta0: int,
    alpha: int,
    beta: int,
    from: nat,
    value: int,
)
    requires
        !is_leaf(oracle, state, limit),
        i32::MIN <= alpha0 < beta0 <= i32::MAX,
        from <= state.successors().len(),
        prune_state(oracle, oracle_first, state, limit, alpha0, beta0, alpha, beta, from, value),
    ensures
        brackets(
            pruned_from(oracle, oracle_first, state, limit, alpha, beta, from, value),
            best_of_first(oracle, oracle_first, state, limit, state.successors().len()),
            alpha0,
            beta0,
        ),
    decreases plies_left(state, limit), 0nat, state.successors().len() - from,
{
    let all = state.successors().len();
    if from < all {
        let child = state.successors()[from as int];
        if limit is None {
            state.lemma_successor(from as int);
        }
        lemma_pruned_brackets(oracle, oracle_first, child, below(limit), alpha, beta);
        let found = pruned_with(oracle, oracle_first, child, below(limit), alpha, beta);
        let exact = minimax_with(oracle, oracle_first, child, below(limit));
        let best = better(state.maximising(), value, found);
        let so_far = best_of_first(oracle, oracle_first, state, limit, from);
        let next = best_of_first(oracle, oracle_first, state, limit, from + 1);
        assert(next == better(state.maximising(), so_far, exact));
        lemma_best_of_first_grows(oracle, oracle_first, state, limit, from + 1, all);
        if state.maximising() {
            if best < beta {
                lemma_pruned_from_brackets(
                    oracle,
                    oracle_first,
                    state,
                    limit,
                    alpha0,
                    beta0,
                    better(true, alpha, best),
                    beta,
                    from + 1,
                    best,
                );
            }
        } else {
            if best > alpha {
                lemma_pruned_from_brackets(
                    oracle,
                    oracle_first,
                    state,
                    limit,
                    alpha0,
                    beta0,
                    alpha,
                    better(false, beta, best),
                    from + 1,
                    best,
                );
            }
        }
    }
}

/// The minimax value of a valid state fits the score's type.
pub proof fn lemma_minimax_in_range<T: GameLaws>(
    oracle: Oracle<T>,
    oracle_first: bool,
    state: T,
    limit: Limit,
)
    requires
        state.valid(),
        forall|s: T| #[trigger] oracle(s) is Some ==> i32::MIN <= oracle(s)->0 <= i32::MAX,
    ensures
        i32::MIN <= minimax_with(oracle, oracle_first, state, limit) <= i32::MAX,
    decreases plies_left(state, limit), 1nat, 0nat,
{
    state.lemma_score_in_range();
    if !is_leaf(oracle, state, limit) {
        lemma_best_in_range(oracle, oracle_first, state, limit, state.successors().len());
    }
}

/// The best of the minimax values of the first successors of a valid state
/// fits the score's type.
proof fn lemma_best_in_range<T: GameLaws>(
    oracle: Oracle<T>,
    oracle_first: bool,
    state: T,
    limit: Limit,
    count: nat,
)
    requires
        state.valid(),
        forall|s: T| #[trigger] oracle(s) is Some ==> i32::MIN <= oracle(s)->0 <= i32::MAX,
    ensures
        i32::MIN <= best_of_first(oracle, oracle_first, state, limit, count) <= i32::MAX,
    decreases plies_left(state, limit), 0nat, count,
{
    if !(count == 0 || count > state.successors().len() || is_leaf(oracle, state, limit)) {
        lemma_best_in_range(oracle, oracle_first, state, limit, (count - 1) as nat);
        state.lemma_successor(count - 1);
        lemma_minimax_in_range(oracle, oracle_first, state.successors()[count - 1], below(limit));
    }
}

/// Search consistency: alpha-beta search in the widest window returns the
/// minimax value.
pub proof fn lemma_alphabeta_is_minimax<T: GameLaws>(state: T, depth: nat)
    requires
        state.valid(),
    ensures
        alphabeta_value(state, depth, i32::MIN as int, i32::MAX as int) == minimax_value(
            state,
            depth,
        ),
{
    let oracle = crate::minimax::values::no_oracle::<T>();
    lemma_pruned_brackets(oracle, false, state, Some(depth), i32::MIN as int, i32::MAX as int);
    lemma_minimax_in_range(oracle, false, state, Some(depth));
    lemma_pruned_in_range(oracle, false, state, Some(depth), i32::MIN as int, i32::MAX as int);
}

/// In the widest window alpha-beta search returns the minimax value, whatever
/// the oracle and the limit.
pub proof fn lemma_widest_window<T: GameLaws>(
    oracle: Oracle<T>,
    oracle_first: bool,
    state: T,
    limit: Limit,
)
    requires
        state.valid(),
        forall|s: T| #[trigger] oracle(s) is Some ==> i32::MIN <= oracle(s)->0 <= i32::MAX,
    ensures
        pruned_with(oracle, oracle_first, state, limit, i32::MIN as int, i32::MAX as int)
            == minimax_with(oracle, oracle_first, state, limit),
{
    lemma_pruned_brackets(oracle, oracle_first, state, limit, i32::MIN as int, i32::MAX as int);
    lemma_minimax_in_range(oracle, oracle_first, state, limit);
    lemma_pruned_in_range(oracle, oracle_first, state, limit, i32::MIN as int, i32::MAX as int);
}

/// The value that alpha-beta search returns for a valid state fits the score's
/// type.
pub proof fn lemma_pruned_in_range<T: GameLaws>(
    oracle: Oracle<T>,
    oracle_first: bool,
    state: T,
    limit: Limit,
    alpha: int,
    beta: int,
)
    requires
        state.valid(),
        forall|s: T| #[trigger] oracle(s) is Some ==> i32::MIN <= oracle(s)->0 <= i32::MAX,
    ensures
        i32::MIN <= pruned_with(oracle, oracle_first, state, limit, alpha, beta) <= i32::MAX,
    decreases plies_left(state, limit), 1nat, 0nat,
{
    state.lemma_score_in_range();
    if !is_leaf(oracle, state, limit) {
        lemma_pruned_from_in_range(
            oracle,
            oracle_first,
            state,
            limit,
            alpha,
            beta,
            0,
            worst(state.maximising()),
        );
    }
}

/// The value that alpha-beta search returns once it has tried some successors
/// of a valid state fits the score's type.
proof fn lemma_pruned_from_in_range<T: GameLaws>(
    oracle: Oracle<T>,
    oracle_first: bool,
    state: T,
    limit: Limit,
    alpha: int,
    beta: int,
    from: nat,
    value: int,
)
    requires
        state.valid(),
        forall|s: T| #[trigger] oracle(s) is Some ==> i32::MIN <= oracle(s)->0 <= i32::MAX,
        i32::MIN <= value <= i32::MAX,
    ensures
        i32::MIN <= pruned_from(oracle, oracle_first, state, limit, alpha, beta, from, value)
            <= i32::MAX,
    decreases plies_left(state, limit), 0nat, state.successors().len() - from,
{
    if !(from >= state.successors().len() || is_leaf(oracle, state, limit)) {
        let child = state.successors()[from as int];
        state.lemma_successor(from as int);
        lemma_pruned_in_range(oracle, oracle_first, child, below(limit), alpha, beta);
        let found = pruned_with(oracle, oracle_first, child, below(limit), alpha, beta);
        let best = better(state.maximising(), value, found);
        if state.maximising() {
            if best < beta {
                lemma_pruned_from_in_range(
                    oracle,
                    oracle_first,
                    state,
                    limit,
                    better(true, alpha, best),
                    beta,
                    from + 1,
                    best,
                );
            }
        } else {
            if best > alpha {
                lemma_pruned_from_in_range(
                    oracle,
                    oracle_first,
                    state,
                    limit,
                    alpha,
                    better(false, beta, best),
                    from + 1,
                    best,
                );
            }
        }
    }
}

} // verus!
