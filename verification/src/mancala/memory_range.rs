use crate::mancala::game_state::{board_stones, MancalaGameState};
use crate::mancala::live::lemma_live_successors;
use crate::minimax::game_state::{GameLaws, GameState};
use crate::minimax::memory::{
    children_with_memory, deepening_from, mtdf_with_memory_from, probe, recorded_depth, remember,
    search_with_memory, Memory, Probe,
};
use crate::minimax::transposition_table::TranspositionTableElement;
use crate::minimax::values::{below, better, is_leaf, no_oracle, worst, Limit, Oracle};
use vstd::prelude::*;

verus! {

/// The value is one that a game with `stones` stones on the board can have.
pub open spec fn within(value: int, stones: int) -> bool {
    -stones <= value <= stones
}

/// The bounds of the element are values of a game with `stones` stones, where
/// they are not the bounds that know nothing.
pub open spec fn sane_element(element: TranspositionTableElement, stones: int) -> bool {
    &&& element.lower_bound.bound == i32::MIN || within(element.lower_bound.bound as int, stones)
    &&& element.upper_bound.bound == i32::MAX || within(element.upper_bound.bound as int, stones)
}

/// All bounds that the memory holds are values of a game with `stones` stones.
pub open spec fn sane(memory: Memory<MancalaGameState>, stones: int) -> bool {
    forall|state: MancalaGameState| #[trigger]
        memory.contains_key(state) ==> sane_element(memory[state], stones)
}

/// What the oracle knows of the positions of a game with `stones` stones are
/// values of such a game.
pub open spec fn oracle_within(oracle: Oracle<MancalaGameState>, stones: int) -> bool {
    forall|state: MancalaGameState|
        state.live() && board_stones(state.pits@) == stones && #[trigger] oracle(state) is Some
            ==> within(oracle(state)->0, stones)
}

/// The score of a position lies between the stones of the board taken
/// negatively and positively.
pub proof fn lemma_score_within(state: MancalaGameState)
    ensures
        within(state.score(), board_stones(state.pits@)),
{
    reveal(board_stones);
}

/// Recording a value of the game keeps the memory sane.
pub proof fn lemma_remember_sane(
    memory: Memory<MancalaGameState>,
    near_root: bool,
    state: MancalaGameState,
    value: int,
    alpha: int,
    beta: int,
    depth: u32,
    stones: int,
)
    requires
        sane(memory, stones),
        within(value, stones),
        0 <= stones <= MancalaGameState::TOTAL_STONES,
    ensures
        sane(remember(memory, near_root, state, value, alpha, beta, depth), stones),
{
    let after = remember(memory, near_root, state, value, alpha, beta, depth);
    assert forall|other: MancalaGameState| #[trigger] after.contains_key(other) implies sane_element(
        after[other],
        stones,
    ) by {
        if near_root && other == state {
            if memory.contains_key(state) {
                assert(sane_element(memory[state], stones));
            }
        } else {
            assert(memory.contains_key(other));
        }
    }
}

/// A search with memory of a position of a game, from a sane memory, finds a
/// value of the game and leaves the memory sane.
pub proof fn lemma_search_within(
    oracle: Oracle<MancalaGameState>,
    memory: Memory<MancalaGameState>,
    reach: u32,
    state: MancalaGameState,
    limit: Limit,
    plies: nat,
    alpha: int,
    beta: int,
)
    requires
        state.live(),
        sane(memory, board_stones(state.pits@)),
        oracle_within(oracle, board_stones(state.pits@)),
        i32::MIN <= alpha < beta <= i32::MAX,
        limit is Some ==> limit->0 <= u32::MAX,
    ensures
        within(
            search_with_memory(oracle, memory, reach, state, limit, plies, alpha, beta).0,
            board_stones(state.pits@),
        ),
        sane(
            search_with_memory(oracle, memory, reach, state, limit, plies, alpha, beta).1,
            board_stones(state.pits@),
        ),
    decreases crate::minimax::values::plies_left(state, limit), 1nat, 0nat,
{
    let stones = board_stones(state.pits@);
    let near_root = plies <= reach;
    assert(0 <= stones) by {
        reveal(board_stones);
    }
    match oracle(state) {
        Some(value) => {
            lemma_remember_sane(memory, near_root, state, value, value, value, u32::MAX, stones);
        },
        None => {
            if near_root && limit is Some && memory.contains_key(state) {
                assert(sane_element(memory[state], stones));
            }
            let consulted = if near_root && limit is Some && memory.contains_key(state) {
                probe(memory[state], limit->0, alpha, beta)
            } else {
                Probe::Window(alpha, beta)
            };
            match consulted {
                Probe::Cut(value) => {},
                Probe::Window(low, high) => {
                    if is_leaf(no_oracle(), state, limit) {
                        lemma_score_within(state);
                        lemma_remember_sane(
                            memory,
                            near_root,
                            state,
                            state.score(),
                            low,
                            high,
                            recorded_depth(limit),
                            stones,
                        );
                    } else {
                        lemma_children_within(
                            oracle,
                            memory,
                            reach,
                            state,
                            limit,
                            plies,
                            low,
                            high,
                            0,
                            worst(state.maximising()),
                        );
                        let (value, after) = children_with_memory(
                            oracle,
                            memory,
                            reach,
                            state,
                            limit,
                            plies,
                            low,
                            high,
                            0,
                            worst(state.maximising()),
                        );
                        lemma_remember_sane(
                            after,
                            near_root,
                            state,
                            value,
                            low,
                            high,
                            recorded_depth(limit),
                            stones,
                        );
                    }
                },
            }
        },
    }
}

/// The same of a search over the successors of a position that has tried the
/// first `from` of them.
proof fn lemma_children_within(
    oracle: Oracle<MancalaGameState>,
    memory: Memory<MancalaGameState>,
    reach: u32,
    state: MancalaGameState,
    limit: Limit,
    plies: nat,
    alpha: int,
    beta: int,
    from: nat,
    value: int,
)
    requires
        state.live(),
        !is_leaf(no_oracle(), state, limit),
        sane(memory, board_stones(state.pits@)),
        oracle_within(oracle, board_stones(state.pits@)),
        i32::MIN <= alpha < beta <= i32::MAX,
        limit is Some ==> limit->0 <= u32::MAX,
        from <= state.successors().len(),
        from == 0 ==> value == worst(state.maximising()),
        from > 0 ==> within(value, board_stones(state.pits@)),
    ensures
        within(
            children_with_memory(
                oracle,
                memory,
                reach,
                state,
                limit,
                plies,
                alpha,
                beta,
                from,
                value,
            ).0,
            board_stones(state.pits@),
        ),
        sane(
            children_with_memory(
                oracle,
                memory,
                reach,
                state,
                limit,
                plies,
                alpha,
                beta,
                from,
                value,
            ).1,
            board_stones(state.pits@),
        ),
    decreases
            crate::minimax::values::plies_left(state, limit),
            0nat,
            state.successors().len() - from,
{
    let stones = board_stones(state.pits@);
    lemma_live_successors(state);
    if from < state.successors().len() {
        let child = state.successors()[from as int];
        if limit is None {
            state.lemma_successor(from as int);
        }
        lemma_search_within(oracle, memory, reach, child, below(limit), plies + 1, alpha, beta);
        let (found, after) = search_with_memory(
            oracle,
            memory,
            reach,
            child,
            below(limit),
            plies + 1,
            alpha,
            beta,
        );
        let best = better(state.maximising(), value, found);
        assert(within(best, stones));
        if state.maximising() {
            if best < beta {
                lemma_children_within(
                    oracle,
                    after,
                    reach,
                    state,
                    limit,
                    plies,
                    better(true, alpha, best),
                    beta,
                    from + 1,
                    best,
                );
            }
        } else {
            if best > alpha {
                lemma_children_within(
                    oracle,
                    after,
                    reach,
                    state,
                    limit,
                    plies,
                    alpha,
                    better(false, beta, best),
                    from + 1,
                    best,
                );
            }
        }
    }
}

/// MTD(f) with memory on a position of a game, from a sane memory, finds a
/// value of the game.
pub proof fn lemma_mtdf_within(
    oracle: Oracle<MancalaGameState>,
    memory: Memory<MancalaGameState>,
    reach: u32,
    state: MancalaGameState,
    limit: Limit,
    plies: nat,
    guess: int,
    lower: int,
    upper: int,
)
    requires
        state.live(),
        sane(memory, board_stones(state.pits@)),
        oracle_within(oracle, board_stones(state.pits@)),
        limit is Some ==> limit->0 <= u32::MAX,
        i32::MIN <= lower,
        upper <= i32::MAX,
        within(guess, board_stones(state.pits@)) || (lower < upper && guess <= upper),
    ensures
        within(
            mtdf_with_memory_from(oracle, memory, reach, state, limit, plies, guess, lower, upper).0,
            board_stones(state.pits@),
        ),
        sane(
            mtdf_with_memory_from(oracle, memory, reach, state, limit, plies, guess, lower, upper).1,
            board_stones(state.pits@),
        ),
    decreases
            (if upper > lower {
                upper - lower
            } else {
                0
            }),
{
    if !(lower >= upper || guess > upper) {
        let beta = better(true, guess, lower + 1);
        lemma_search_within(oracle, memory, reach, state, limit, plies, beta - 1, beta);
        let (found, after) = search_with_memory(
            oracle,
            memory,
            reach,
            state,
            limit,
            plies,
            beta - 1,
            beta,
        );
        assert(0 <= board_stones(state.pits@) <= 48) by {
            reveal(board_stones);
        }
        if found < beta {
            lemma_mtdf_within(oracle, after, reach, state, limit, plies, found, lower, found);
        } else {
            lemma_mtdf_within(oracle, after, reach, state, limit, plies, found, found, upper);
        }
    }
}

/// Iterative deepening on a position of a game reports values of the game:
/// whatever the depth, the value lies between the stones of the board taken
/// negatively and positively, so that the values of two depths differ by at
/// most twice the stones of the board.
pub proof fn lemma_deepening_within(
    oracle: Oracle<MancalaGameState>,
    memory: Memory<MancalaGameState>,
    reach: u32,
    state: MancalaGameState,
    below_root: bool,
    max_depth: nat,
    depth: nat,
    guess: int,
)
    requires
        state.live(),
        sane(memory, board_stones(state.pits@)),
        oracle_within(oracle, board_stones(state.pits@)),
        max_depth <= u32::MAX,
        i32::MIN <= guess <= i32::MAX,
        within(guess, board_stones(state.pits@)) || depth <= max_depth,
    ensures
        within(
            deepening_from(oracle, memory, reach, state, below_root, max_depth, depth, guess).0,
            board_stones(state.pits@),
        ),
        sane(
            deepening_from(oracle, memory, reach, state, below_root, max_depth, depth, guess).1,
            board_stones(state.pits@),
        ),
    decreases max_depth + 2 - depth,
{
    if depth <= max_depth {
        let plies: nat = if below_root {
            (max_depth - depth) as nat
        } else {
            0
        };
        lemma_mtdf_within(
            oracle,
            memory,
            reach,
            state,
            Some(depth),
            plies,
            guess,
            i32::MIN as int,
            i32::MAX as int,
        );
        let (found, after) = mtdf_with_memory_from(
            oracle,
            memory,
            reach,
            state,
            Some(depth),
            plies,
            guess,
            i32::MIN as int,
            i32::MAX as int,
        );
        assert(0 <= board_stones(state.pits@) <= 48) by {
            reveal(board_stones);
        }
        lemma_deepening_within(oracle, after, reach, state, below_root, max_depth, depth + 2, found);
    }
}

/// Table monotonicity: with the transposition table and iterative deepening,
/// the value reported at one depth differs from the value reported at another
/// by at most twice the stones of the board, the width of the range of the
/// values of the game.
pub proof fn lemma_deepening_steps(
    oracle: Oracle<MancalaGameState>,
    reach: u32,
    state: MancalaGameState,
    below_root: bool,
    depth: nat,
    deeper: nat,
)
    requires
        state.live(),
        oracle_within(oracle, board_stones(state.pits@)),
        depth <= deeper <= u32::MAX,
    ensures
        ({
            let shallow = deepening_from(
                oracle,
                Map::empty(),
                reach,
                state,
                below_root,
                depth,
                depth % 2,
                0,
            ).0;
            let deep = deepening_from(
                oracle,
                Map::empty(),
                reach,
                state,
                below_root,
                deeper,
                deeper % 2,
                0,
            ).0;
            -2 * board_stones(state.pits@) <= deep - shallow <= 2 * board_stones(state.pits@)
        }),
{
    let memory = Map::<MancalaGameState, TranspositionTableElement>::empty();
    assert(sane(memory, board_stones(state.pits@)));
    lemma_deepening_within(oracle, memory, reach, state, below_root, depth, depth % 2, 0);
    lemma_deepening_within(oracle, memory, reach, state, below_root, deeper, deeper % 2, 0);
}

/// What a built endgame table knows of the positions of a game are values of
/// the game.
pub proof fn lemma_built_oracle_within(
    endgames_table: &crate::mancala::endgames_table::MancalaEndgamesTable,
    stones: int,
)
    requires
        endgames_table.is_built(),
        endgames_table.current_stones <= MancalaGameState::TOTAL_STONES,
    ensures
        oracle_within(crate::minimax::endgames_table::oracle_of(endgames_table), stones),
{
    let oracle = crate::minimax::endgames_table::oracle_of(endgames_table);
    assert forall|state: MancalaGameState|
        state.live() && board_stones(state.pits@) == stones && #[trigger] oracle(state)
            is Some implies within(oracle(state)->0, stones) by {
        crate::mancala::table_exactness::lemma_lookup_exact(endgames_table, state);
        crate::mancala::exactness::lemma_game_value_range(state);
    }
}

} // verus!
